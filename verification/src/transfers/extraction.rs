//! What a tile contributes to the raw graph: ways, the points of their shapes, and their metadata.

use crate::timetable::distance::{
    f64_to_u32, floor_of, lemma_whole_part, rank_of, whole_part, LARGEST_RANK,
};
use crate::transfers::records::{PointRecord, RawGraphEdgeRecord, RawMetadataRecord};
use crate::transfers::staging::TileManifestEntry;
use std::collections::HashMap;
use vstd::arithmetic::power2::pow2;
use vstd::prelude::*;

verus! {

/// What is known of a directed edge of a tile.
///
/// Its length is given in metres and in millimetres, by their bit patterns; its shape as the cells
/// of its points and, if it can be encoded, as a polyline.
#[derive(Debug)]
pub struct EdgeFacts {
    pub transit_line: bool,
    pub shortcut: bool,
    pub ferry: bool,
    pub shape_cells: Vec<u64>,
    pub end_tile: u64,
    pub end_index: u32,
    pub length_bits: u64,
    pub millimetres_bits: u64,
    pub encoded_shape: Option<Vec<u8>>,
    pub forward_pedestrian: bool,
    pub reverse_pedestrian: bool,
}

/// What is known of a node of a tile: whether pedestrians may be there, and the edges that leave
/// it.
#[derive(Debug)]
pub struct NodeFacts {
    pub pedestrian: bool,
    pub edges: Vec<EdgeFacts>,
}

/// Why a shard cannot be extracted.
#[derive(Clone, Copy, PartialEq, Eq, Structural, Debug)]
pub enum ExtractError {
    /// The length of an edge does not fit in 32 bits.
    WeightDoesNotFit,
    /// The shape of an edge cannot be encoded.
    ShapeNotEncoded,
    /// The encoded shape of an edge is longer than 32 bits can say.
    ShapeTooLong,
}

/// What was extracted so far.
#[derive(Debug)]
pub struct RawShard {
    pub graph_edges: Vec<RawGraphEdgeRecord>,
    pub points: Vec<PointRecord>,
    pub metadata_records: Vec<RawMetadataRecord>,
    pub metadata_shapes: Vec<u8>,
}

/// The same as a value.
#[verifier::ext_equal]
pub struct ShardView {
    pub graph_edges: Seq<RawGraphEdgeRecord>,
    pub points: Seq<PointRecord>,
    pub metadata_records: Seq<RawMetadataRecord>,
    pub metadata_shapes: Seq<u8>,
}

impl View for RawShard {
    type V = ShardView;

    open spec fn view(&self) -> ShardView {
        ShardView {
            graph_edges: self.graph_edges@,
            points: self.points@,
            metadata_records: self.metadata_records@,
            metadata_shapes: self.metadata_shapes@,
        }
    }
}

/// An edge that pedestrians do not use as such: it stands for a transit line, for other edges, or
/// for a ferry.
pub fn should_skip_edge(edge: &EdgeFacts) -> (skip: bool)
    ensures
        skip == (edge.transit_line || edge.shortcut || edge.ferry),
{
    edge.transit_line || edge.shortcut || edge.ferry
}

/// The points of a shape, at the node that its edge leaves.
pub open spec fn points_of(cells: Seq<u64>, raw_node: u32) -> Seq<PointRecord> {
    Seq::new(cells.len(), |i: int| PointRecord { cell: cells[i], raw_node })
}

/// The ways that an edge opens to pedestrians: along it, against it, both or none.
pub open spec fn ways_of(edge: EdgeFacts, start_raw: u32, end_raw: u32, weight_mm: u32) -> Seq<
    RawGraphEdgeRecord,
> {
    let along = RawGraphEdgeRecord { from_raw: start_raw, to_raw: end_raw, weight_mm };
    let against = RawGraphEdgeRecord { from_raw: end_raw, to_raw: start_raw, weight_mm };
    (if edge.forward_pedestrian {
        seq![along]
    } else {
        Seq::empty()
    }) + (if edge.reverse_pedestrian {
        seq![against]
    } else {
        Seq::empty()
    })
}

/// The whole millimetres of a length, if they fit in 32 bits.
pub open spec fn weight_of(millimetres_bits: u64) -> Option<u32> {
    match rank_of(millimetres_bits) {
        Some(rank) => if 0 <= rank <= LARGEST_RANK {
            Some(whole_part(rank) as u32)
        } else {
            None
        },
        None => None,
    }
}

/// The raw number of the node that an edge leads to, if its tile is known.
pub open spec fn end_of(edge: EdgeFacts, offsets: Map<u64, u32>) -> Option<int> {
    if offsets.contains_key(edge.end_tile) {
        Some(offsets[edge.end_tile] + edge.end_index)
    } else {
        None
    }
}

/// The shard after an edge that leaves raw node `start_raw` was extracted.
///
/// An edge to be skipped changes nothing. Of any other the points are kept; and, if it leads to
/// another node of a known tile, its length and shape, and the ways that it opens.
pub open spec fn with_edge(
    shard: ShardView,
    start_raw: u32,
    edge: EdgeFacts,
    offsets: Map<u64, u32>,
) -> Result<ShardView, ExtractError> {
    let pointed = ShardView {
        points: shard.points + points_of(edge.shape_cells@, start_raw),
        ..shard
    };
    if edge.transit_line || edge.shortcut || edge.ferry {
        Ok(shard)
    } else if end_of(edge, offsets) is None || end_of(edge, offsets) == Some(start_raw as int) {
        Ok(pointed)
    } else if weight_of(edge.millimetres_bits) is None {
        Err(ExtractError::WeightDoesNotFit)
    } else if edge.encoded_shape is None {
        Err(ExtractError::ShapeNotEncoded)
    } else if edge.encoded_shape->0@.len() > u32::MAX {
        Err(ExtractError::ShapeTooLong)
    } else {
        let end_raw = end_of(edge, offsets)->0 as u32;
        let shape = edge.encoded_shape->0@;
        Ok(
            ShardView {
                graph_edges: shard.graph_edges + ways_of(
                    edge,
                    start_raw,
                    end_raw,
                    weight_of(edge.millimetres_bits)->0,
                ),
                points: pointed.points,
                metadata_records: shard.metadata_records.push(
                    RawMetadataRecord {
                        from_raw: start_raw,
                        to_raw: end_raw,
                        length_bits: edge.length_bits,
                        shape_offset: shard.metadata_shapes.len() as u64,
                        shape_len: shape.len() as u32,
                    },
                ),
                metadata_shapes: shard.metadata_shapes + shape,
            },
        )
    }
}

/// The shard after the first `k` edges of a node were extracted.
pub open spec fn with_edges(
    shard: ShardView,
    start_raw: u32,
    edges: Seq<EdgeFacts>,
    offsets: Map<u64, u32>,
    k: int,
) -> Result<ShardView, ExtractError>
    decreases k,
{
    if k <= 0 {
        Ok(shard)
    } else {
        match with_edges(shard, start_raw, edges, offsets, k - 1) {
            Err(err) => Err(err),
            Ok(before) => with_edge(before, start_raw, edges[k - 1], offsets),
        }
    }
}

/// The shard after the first `k` nodes of a tile were extracted: of those where pedestrians may
/// be, the edges.
pub open spec fn with_nodes(
    shard: ShardView,
    raw_offset: u32,
    nodes: Seq<NodeFacts>,
    offsets: Map<u64, u32>,
    k: int,
) -> Result<ShardView, ExtractError>
    decreases k,
{
    if k <= 0 {
        Ok(shard)
    } else {
        match with_nodes(shard, raw_offset, nodes, offsets, k - 1) {
            Err(err) => Err(err),
            Ok(before) => if nodes[k - 1].pedestrian {
                let edges = nodes[k - 1].edges@;
                with_edges(
                    before,
                    (raw_offset + k - 1) as u32,
                    edges,
                    offsets,
                    edges.len() as int,
                )
            } else {
                Ok(before)
            },
        }
    }
}

/// What holds of a shard: every way joins two different nodes, and the shape of every record is
/// among the shapes.
pub open spec fn shard_ok(shard: ShardView) -> bool {
    &&& forall|i: int|
        0 <= i < shard.graph_edges.len() ==> (#[trigger] shard.graph_edges[i]).from_raw
            != shard.graph_edges[i].to_raw
    &&& forall|i: int|
        0 <= i < shard.metadata_records.len() ==> {
            let record = #[trigger] shard.metadata_records[i];
            record.shape_offset + record.shape_len <= shard.metadata_shapes.len()
        }
}

/// The raw number of the node that the edge leads to, if its tile is known, fits in 32 bits.
pub open spec fn edge_fits(edge: EdgeFacts, offsets: Map<u64, u32>) -> bool {
    end_of(edge, offsets) matches Some(end_raw) ==> end_raw <= u32::MAX
}

/// Tests whether the raw number of the node that an edge leads to fits in 32 bits.
pub fn fits(edge: &EdgeFacts, offsets: &HashMap<u64, u32>) -> (b: bool)
    ensures
        b == edge_fits(*edge, offsets@),
{
    broadcast use vstd::std_specs::hash::group_hash_axioms;

    match offsets.get(&edge.end_tile) {
        Some(offset) => edge.end_index <= u32::MAX - *offset,
        None => true,
    }
}

/// A part of what a tile holds: a node, an edge that leaves it, and something of that edge.
pub struct Source {
    pub node: int,
    pub edge: int,
    pub part: int,
}

/// Whether `a` stands before `b` in a tile.
pub open spec fn stands_before(a: Source, b: Source) -> bool {
    ||| a.node < b.node
    ||| a.node == b.node && a.edge < b.edge
    ||| a.node == b.node && a.edge == b.edge && a.part < b.part
}

/// Whether `x` belongs to a node before node `k`, or to one of the first `e` edges of node `k`.
pub open spec fn lies_before(x: Source, k: int, e: int) -> bool {
    x.node < k || x.node == k && x.edge < e
}

/// `sources` are those parts before edge `e` of node `k` that `wanted` asks for: all of them, each
/// once, in their order.
pub open spec fn gathers(
    sources: Seq<Source>,
    wanted: spec_fn(Source) -> bool,
    k: int,
    e: int,
) -> bool {
    &&& forall|i: int, j: int|
        0 <= i < j < sources.len() ==> stands_before(#[trigger] sources[i], #[trigger] sources[j])
    &&& forall|i: int|
        0 <= i < sources.len() ==> wanted(#[trigger] sources[i]) && lies_before(sources[i], k, e)
    &&& forall|x: Source| wanted(x) && lies_before(x, k, e) ==> #[trigger] sources.contains(x)
}

/// What tiles hold, and how their nodes are numbered.
pub struct Terrain {
    pub raw_offset: u32,
    pub nodes: Seq<NodeFacts>,
    pub offsets: Map<u64, u32>,
}

impl Terrain {
    pub open spec fn edge(self, x: Source) -> EdgeFacts {
        self.nodes[x.node].edges@[x.edge]
    }

    /// An edge that pedestrians may use: its node is open to them, and it is neither a transit
    /// line, nor a shortcut, nor a ferry.
    pub open spec fn usable(self, x: Source) -> bool {
        &&& 0 <= x.node < self.nodes.len()
        &&& self.nodes[x.node].pedestrian
        &&& 0 <= x.edge < self.nodes[x.node].edges@.len()
        &&& !self.edge(x).transit_line
        &&& !self.edge(x).shortcut
        &&& !self.edge(x).ferry
    }

    pub open spec fn start(self, x: Source) -> int {
        self.raw_offset + x.node
    }

    pub open spec fn end(self, x: Source) -> int {
        self.offsets[self.edge(x).end_tile] + self.edge(x).end_index
    }

    /// A usable edge that leads to another node, of a known tile.
    pub open spec fn leads_on(self, x: Source) -> bool {
        &&& self.usable(x)
        &&& self.offsets.contains_key(self.edge(x).end_tile)
        &&& self.end(x) != self.start(x)
    }

    /// A way along an edge, as part 0, or against it, as part 1, that is open to pedestrians.
    pub open spec fn opens(self, x: Source) -> bool {
        &&& self.leads_on(x)
        &&& x.part == 0 && self.edge(x).forward_pedestrian || x.part == 1 && self.edge(
            x,
        ).reverse_pedestrian
    }

    /// A point of the shape of a usable edge.
    pub open spec fn passes(self, x: Source) -> bool {
        self.usable(x) && 0 <= x.part < self.edge(x).shape_cells@.len()
    }

    /// An edge whose length and shape are kept.
    pub open spec fn keeps(self, x: Source) -> bool {
        self.leads_on(x) && x.part == 0
    }

    /// `way` is what `x` opens: it joins the two nodes, and weighs the whole millimetres between.
    pub open spec fn is_way(self, x: Source, way: RawGraphEdgeRecord) -> bool {
        &&& way.from_raw == (if x.part == 0 {
            self.start(x)
        } else {
            self.end(x)
        })
        &&& way.to_raw == (if x.part == 0 {
            self.end(x)
        } else {
            self.start(x)
        })
        &&& floor_of(self.edge(x).millimetres_bits, way.weight_mm as int)
    }

    /// `point` is where `x` passes, noted for the node that its edge leaves.
    pub open spec fn is_point(self, x: Source, point: PointRecord) -> bool {
        &&& point.cell == self.edge(x).shape_cells@[x.part]
        &&& point.raw_node == self.start(x)
    }

    /// `record` tells between which nodes the edge runs, how long it is, and where its shape stands
    /// among `shapes`.
    pub open spec fn is_record(
        self,
        x: Source,
        record: RawMetadataRecord,
        shapes: Seq<u8>,
    ) -> bool {
        &&& record.from_raw == self.start(x)
        &&& record.to_raw == self.end(x)
        &&& record.length_bits == self.edge(x).length_bits
        &&& self.edge(x).encoded_shape is Some
        &&& record.shape_offset + record.shape_len <= shapes.len()
        &&& shapes.subrange(
            record.shape_offset as int,
            record.shape_offset + record.shape_len,
        ) == self.edge(x).encoded_shape->0@
    }
}

/// What was extracted before edge `e` of node `k`, besides what `shard` held: the ways that are
/// open to pedestrians, the points on them, and the length and shape of the edges, all of them and
/// nothing else, in their order.
pub open spec fn extracts(
    shard: ShardView,
    t: ShardView,
    terrain: Terrain,
    k: int,
    e: int,
    ways: Seq<Source>,
    points: Seq<Source>,
    records: Seq<Source>,
) -> bool {
    &&& gathers(ways, |x: Source| terrain.opens(x), k, e)
    &&& gathers(points, |x: Source| terrain.passes(x), k, e)
    &&& gathers(records, |x: Source| terrain.keeps(x), k, e)
    &&& t.graph_edges.len() == shard.graph_edges.len() + ways.len()
    &&& t.points.len() == shard.points.len() + points.len()
    &&& t.metadata_records.len() == shard.metadata_records.len() + records.len()
    &&& shard.graph_edges.is_prefix_of(t.graph_edges)
    &&& shard.points.is_prefix_of(t.points)
    &&& shard.metadata_records.is_prefix_of(t.metadata_records)
    &&& shard.metadata_shapes.is_prefix_of(t.metadata_shapes)
    &&& forall|j: int|
        0 <= j < ways.len() ==> terrain.is_way(
            #[trigger] ways[j],
            t.graph_edges[shard.graph_edges.len() + j],
        )
    &&& forall|j: int|
        0 <= j < points.len() ==> terrain.is_point(
            #[trigger] points[j],
            t.points[shard.points.len() + j],
        )
    &&& forall|j: int|
        0 <= j < records.len() ==> terrain.is_record(
            #[trigger] records[j],
            t.metadata_records[shard.metadata_records.len() + j],
            t.metadata_shapes,
        )
}

/// The parts of edge `e` of node `k` that are asked for, behind those before it.
proof fn lemma_gathers_more(
    sources: Seq<Source>,
    more: Seq<Source>,
    wanted: spec_fn(Source) -> bool,
    k: int,
    e: int,
)
    requires
        gathers(sources, wanted, k, e),
        forall|i: int, j: int|
            0 <= i < j < more.len() ==> (#[trigger] more[i]).part < (#[trigger] more[j]).part,
        forall|i: int|
            0 <= i < more.len() ==> (#[trigger] more[i]).node == k && more[i].edge == e && wanted(
                more[i],
            ),
        forall|x: Source|
            x.node == k && x.edge == e && wanted(x) ==> #[trigger] more.contains(x),
    ensures
        gathers(sources + more, wanted, k, e + 1),
{
    let all = sources + more;
    let n = sources.len();
    assert forall|i: int, j: int| 0 <= i < j < all.len() implies stands_before(
        #[trigger] all[i],
        #[trigger] all[j],
    ) by {
        if j < n {
            assert(stands_before(sources[i], sources[j]));
        } else if i < n {
            assert(lies_before(sources[i], k, e));
            assert(all[j] == more[j - n]);
        } else {
            assert(all[i] == more[i - n] && all[j] == more[j - n]);
        }
    }
    assert forall|i: int| 0 <= i < all.len() implies wanted(#[trigger] all[i]) && lies_before(
        all[i],
        k,
        e + 1,
    ) by {
        if i < n {
            assert(all[i] == sources[i]);
        } else {
            assert(all[i] == more[i - n]);
        }
    }
    assert forall|x: Source| wanted(x) && lies_before(x, k, e + 1) implies
        #[trigger] all.contains(x) by {
        if lies_before(x, k, e) {
            assert(sources.contains(x));
            let i = sources.index_of(x);
            assert(all[i] == x);
        } else {
            assert(more.contains(x));
            let i = more.index_of(x);
            assert(all[n + i] == x);
        }
    }
}

/// `count` parts of an edge, in order.
spec fn parts(k: int, e: int, count: nat) -> Seq<Source> {
    Seq::new(count, |c: int| Source { node: k, edge: e, part: c })
}

proof fn lemma_extracts_edge(
    shard: ShardView,
    s: ShardView,
    terrain: Terrain,
    k: int,
    e: int,
    ways: Seq<Source>,
    points: Seq<Source>,
    records: Seq<Source>,
) -> (more: (Seq<Source>, Seq<Source>, Seq<Source>))
    requires
        extracts(shard, s, terrain, k, e, ways, points, records),
        0 <= k < terrain.nodes.len(),
        terrain.nodes[k].pedestrian,
        0 <= e < terrain.nodes[k].edges@.len(),
        terrain.raw_offset + k <= u32::MAX,
        s.metadata_shapes.len() <= u64::MAX,
        edge_fits(terrain.nodes[k].edges@[e], terrain.offsets),
        with_edge(
            s,
            (terrain.raw_offset + k) as u32,
            terrain.nodes[k].edges@[e],
            terrain.offsets,
        ) is Ok,
    ensures
        extracts(
            shard,
            with_edge(
                s,
                (terrain.raw_offset + k) as u32,
                terrain.nodes[k].edges@[e],
                terrain.offsets,
            )->Ok_0,
            terrain,
            k,
            e + 1,
            more.0,
            more.1,
            more.2,
        ),
{
    let edge = terrain.nodes[k].edges@[e];
    let start = (terrain.raw_offset + k) as u32;
    let t = with_edge(s, start, edge, terrain.offsets)->Ok_0;
    let here = Source { node: k, edge: e, part: 0 };
    let back = Source { node: k, edge: e, part: 1 };
    assert(terrain.edge(here) == edge && terrain.edge(back) == edge);
    let opens = |x: Source| terrain.opens(x);
    let passes = |x: Source| terrain.passes(x);
    let keeps = |x: Source| terrain.keeps(x);
    let new_points = if terrain.usable(here) {
        parts(k, e, edge.shape_cells@.len())
    } else {
        Seq::empty()
    };
    let new_ways = if terrain.leads_on(here) {
        (if edge.forward_pedestrian {
            seq![here]
        } else {
            Seq::empty()
        }) + (if edge.reverse_pedestrian {
            seq![back]
        } else {
            Seq::empty()
        })
    } else {
        Seq::empty()
    };
    let new_records = if terrain.leads_on(here) {
        seq![here]
    } else {
        Seq::empty()
    };
    assert forall|x: Source| x.node == k && x.edge == e && passes(x) implies
        #[trigger] new_points.contains(x) by {
        assert(new_points[x.part] == x);
    }
    assert forall|x: Source| x.node == k && x.edge == e && opens(x) implies
        #[trigger] new_ways.contains(x) by {
        if x.part == 0 {
            assert(new_ways[0] == x);
        } else {
            assert(new_ways[new_ways.len() - 1] == x);
        }
    }
    assert forall|x: Source| x.node == k && x.edge == e && keeps(x) implies
        #[trigger] new_records.contains(x) by {
        assert(new_records[0] == x);
    }
    lemma_gathers_more(points, new_points, passes, k, e);
    lemma_gathers_more(ways, new_ways, opens, k, e);
    lemma_gathers_more(records, new_records, keeps, k, e);
    let all_ways = ways + new_ways;
    let all_points = points + new_points;
    let all_records = records + new_records;
    if terrain.leads_on(here) {
        assert(weight_of(edge.millimetres_bits) is Some);
        lemma_whole_part(edge.millimetres_bits);
        lemma_whole_fits(edge.millimetres_bits);
        assert(t.graph_edges == s.graph_edges + ways_of(
            edge,
            start,
            end_of(edge, terrain.offsets)->0 as u32,
            weight_of(edge.millimetres_bits)->0,
        ));
        assert(t.metadata_shapes == s.metadata_shapes + edge.encoded_shape->0@);
    }
    let n = shard.graph_edges.len();
    assert forall|j: int| 0 <= j < all_ways.len() implies terrain.is_way(
        #[trigger] all_ways[j],
        t.graph_edges[n + j],
    ) by {
        if j < ways.len() {
            assert(all_ways[j] == ways[j]);
            assert(t.graph_edges[n + j] == s.graph_edges[n + j]);
        } else {
            let i = j - ways.len();
            assert(all_ways[j] == new_ways[i]);
            let end = end_of(edge, terrain.offsets)->0 as u32;
            let weight = weight_of(edge.millimetres_bits)->0;
            let opened = ways_of(edge, start, end, weight);
            assert(opened.len() == new_ways.len());
            assert(t.graph_edges[n + j] == opened[i]);
            if edge.forward_pedestrian && i == 0 {
                assert(new_ways[i] == here);
                assert(opened[i].from_raw == start);
            } else {
                assert(new_ways[i] == back);
                assert(opened[i].from_raw == end);
            }
        }
    }
    let np = shard.points.len();
    assert forall|j: int| 0 <= j < all_points.len() implies terrain.is_point(
        #[trigger] all_points[j],
        t.points[np + j],
    ) by {
        if j < points.len() {
            assert(all_points[j] == points[j]);
            assert(t.points[np + j] == s.points[np + j]);
        } else {
            assert(all_points[j] == new_points[j - points.len()]);
        }
    }
    let nr = shard.metadata_records.len();
    assert forall|j: int| 0 <= j < all_records.len() implies terrain.is_record(
        #[trigger] all_records[j],
        t.metadata_records[nr + j],
        t.metadata_shapes,
    ) by {
        if j < records.len() {
            assert(all_records[j] == records[j]);
            let record = s.metadata_records[nr + j];
            assert(t.metadata_records[nr + j] == record);
            assert(terrain.is_record(records[j], record, s.metadata_shapes));
            assert(t.metadata_shapes.subrange(
                record.shape_offset as int,
                record.shape_offset + record.shape_len,
            ) =~= s.metadata_shapes.subrange(
                record.shape_offset as int,
                record.shape_offset + record.shape_len,
            ));
        } else {
            assert(all_records[j] == here);
            let record = t.metadata_records[nr + j];
            assert(t.metadata_shapes.subrange(
                record.shape_offset as int,
                record.shape_offset + record.shape_len,
            ) =~= edge.encoded_shape->0@);
        }
    }
    (all_ways, all_points, all_records)
}

proof fn lemma_extracts_edges(
    shard: ShardView,
    s: ShardView,
    terrain: Terrain,
    k: int,
    e: int,
    ways: Seq<Source>,
    points: Seq<Source>,
    records: Seq<Source>,
) -> (more: (Seq<Source>, Seq<Source>, Seq<Source>))
    requires
        extracts(shard, s, terrain, k, 0, ways, points, records),
        0 <= k < terrain.nodes.len(),
        terrain.nodes[k].pedestrian,
        0 <= e <= terrain.nodes[k].edges@.len(),
        terrain.raw_offset + k <= u32::MAX,
        forall|l: int|
            0 <= l < terrain.nodes[k].edges@.len() ==> edge_fits(
                #[trigger] terrain.nodes[k].edges@[l],
                terrain.offsets,
            ),
        with_edges(
            s,
            (terrain.raw_offset + k) as u32,
            terrain.nodes[k].edges@,
            terrain.offsets,
            e,
        ) is Ok,
        with_edges(
            s,
            (terrain.raw_offset + k) as u32,
            terrain.nodes[k].edges@,
            terrain.offsets,
            e,
        )->Ok_0.metadata_shapes.len() <= u64::MAX,
    ensures
        extracts(
            shard,
            with_edges(
                s,
                (terrain.raw_offset + k) as u32,
                terrain.nodes[k].edges@,
                terrain.offsets,
                e,
            )->Ok_0,
            terrain,
            k,
            e,
            more.0,
            more.1,
            more.2,
        ),
    decreases e,
{
    if e <= 0 {
        (ways, points, records)
    } else {
        let start = (terrain.raw_offset + k) as u32;
        let edges = terrain.nodes[k].edges@;
        let before = with_edges(s, start, edges, terrain.offsets, e - 1)->Ok_0;
        assert(edge_fits(edges[e - 1], terrain.offsets));
        let (w, p, m) = lemma_extracts_edges(
            shard,
            s,
            terrain,
            k,
            e - 1,
            ways,
            points,
            records,
        );
        lemma_extracts_edge(shard, before, terrain, k, e - 1, w, p, m)
    }
}

proof fn lemma_next_node(
    sources: Seq<Source>,
    wanted: spec_fn(Source) -> bool,
    k: int,
    e: int,
)
    requires
        gathers(sources, wanted, k, e),
        forall|x: Source| #[trigger] wanted(x) && x.node == k ==> x.edge < e,
        forall|x: Source| #[trigger] wanted(x) ==> x.edge >= 0,
    ensures
        gathers(sources, wanted, k + 1, 0),
{
    assert forall|x: Source| wanted(x) && lies_before(x, k + 1, 0) implies
        #[trigger] sources.contains(x) by {
        assert(lies_before(x, k, e));
    }
}

/// What a tile contributes: of its edges that pedestrians may use, the points, and of those that
/// lead to another node, the ways that they open, and their length and shape. All of that and
/// nothing else is extracted, in the order in which it stands in the tile.
pub proof fn lemma_tile_extracted(shard: ShardView, terrain: Terrain, k: int) -> (found: (
    Seq<Source>,
    Seq<Source>,
    Seq<Source>,
))
    requires
        0 <= k <= terrain.nodes.len(),
        terrain.raw_offset + terrain.nodes.len() <= 0x1_0000_0000,
        forall|n: int, e: int|
            0 <= n < terrain.nodes.len() && 0 <= e < terrain.nodes[n].edges@.len() ==> edge_fits(
                #[trigger] terrain.nodes[n].edges@[e],
                terrain.offsets,
            ),
        with_nodes(shard, terrain.raw_offset, terrain.nodes, terrain.offsets, k) is Ok,
        with_nodes(
            shard,
            terrain.raw_offset,
            terrain.nodes,
            terrain.offsets,
            k,
        )->Ok_0.metadata_shapes.len() <= u64::MAX,
    ensures
        extracts(
            shard,
            with_nodes(shard, terrain.raw_offset, terrain.nodes, terrain.offsets, k)->Ok_0,
            terrain,
            k,
            0,
            found.0,
            found.1,
            found.2,
        ),
    decreases k,
{
    if k <= 0 {
        let none = Seq::<Source>::empty();
        (none, none, none)
    } else {
        let before = with_nodes(
            shard,
            terrain.raw_offset,
            terrain.nodes,
            terrain.offsets,
            k - 1,
        )->Ok_0;
        let node = terrain.nodes[k - 1];
        let edges = node.edges@;
        if node.pedestrian {
            lemma_edges_grow(
                before,
                (terrain.raw_offset + k - 1) as u32,
                edges,
                terrain.offsets,
                edges.len() as int,
            );
        }
        let (w, p, m) = lemma_tile_extracted(shard, terrain, k - 1);
        let (ways, points, records) = if node.pedestrian {
            lemma_extracts_edges(
                shard,
                before,
                terrain,
                k - 1,
                edges.len() as int,
                w,
                p,
                m,
            )
        } else {
            (w, p, m)
        };
        let e = if node.pedestrian {
            edges.len() as int
        } else {
            0
        };
        lemma_next_node(ways, |x: Source| terrain.opens(x), k - 1, e);
        lemma_next_node(points, |x: Source| terrain.passes(x), k - 1, e);
        lemma_next_node(records, |x: Source| terrain.keeps(x), k - 1, e);
        (ways, points, records)
    }
}

/// Why an edge that leads on cannot be extracted, if it cannot: its millimetres are more than 32
/// bits can say, or its shape cannot be encoded or is too long.
pub open spec fn fault_of(terrain: Terrain, x: Source) -> Option<ExtractError> {
    let edge = terrain.edge(x);
    if !(edge.millimetres_bits <= 0x41ef_ffff_ffe0_0000 || edge.millimetres_bits
        == 0x8000_0000_0000_0000) {
        Some(ExtractError::WeightDoesNotFit)
    } else if edge.encoded_shape is None {
        Some(ExtractError::ShapeNotEncoded)
    } else if edge.encoded_shape->0@.len() > 0xffff_ffff {
        Some(ExtractError::ShapeTooLong)
    } else {
        None
    }
}

/// `x` is the first edge before edge `e` of node `k` that leads on and cannot be extracted.
pub open spec fn first_fault(terrain: Terrain, x: Source, k: int, e: int) -> bool {
    &&& terrain.keeps(x)
    &&& lies_before(x, k, e)
    &&& fault_of(terrain, x) is Some
    &&& forall|y: Source| #[trigger]
        terrain.keeps(y) && stands_before(y, x) ==> fault_of(terrain, y) is None
}

/// No edge before edge `e` of node `k` that leads on fails.
pub open spec fn no_fault(terrain: Terrain, k: int, e: int) -> bool {
    forall|x: Source| #[trigger]
        terrain.keeps(x) && lies_before(x, k, e) ==> fault_of(terrain, x) is None
}

/// `r` fails as the first edge does that cannot be extracted, and not where all can.
pub open spec fn fails_first(
    terrain: Terrain,
    k: int,
    e: int,
    r: Result<ShardView, ExtractError>,
) -> bool {
    match r {
        Ok(_) => no_fault(terrain, k, e),
        Err(err) => exists|x: Source| #[trigger]
            first_fault(terrain, x, k, e) && fault_of(terrain, x) == Some(err),
    }
}

proof fn lemma_edges_fault(shard: ShardView, terrain: Terrain, k: int, e: int)
    requires
        0 <= k < terrain.nodes.len(),
        terrain.nodes[k].pedestrian,
        0 <= e <= terrain.nodes[k].edges@.len(),
        terrain.raw_offset + k <= u32::MAX,
        no_fault(terrain, k, 0),
    ensures
        fails_first(
            terrain,
            k,
            e,
            with_edges(
                shard,
                (terrain.raw_offset + k) as u32,
                terrain.nodes[k].edges@,
                terrain.offsets,
                e,
            ),
        ),
    decreases e,
{
    if e > 0 {
        lemma_edges_fault(shard, terrain, k, e - 1);
        let start = (terrain.raw_offset + k) as u32;
        let edges = terrain.nodes[k].edges@;
        let here = Source { node: k, edge: e - 1, part: 0 };
        let bits = edges[e - 1].millimetres_bits;
        assert(terrain.edge(here) == edges[e - 1]);
        assert(weight_of(bits) is Some <==> bits <= 0x41ef_ffff_ffe0_0000 || bits
            == 0x8000_0000_0000_0000);
        match with_edges(shard, start, edges, terrain.offsets, e - 1) {
            Err(err) => {
                let x = choose|x: Source| #[trigger]
                    first_fault(terrain, x, k, e - 1) && fault_of(terrain, x) == Some(err);
                assert(first_fault(terrain, x, k, e));
            },
            Ok(before) => {
                assert forall|x: Source| #[trigger]
                    terrain.keeps(x) && lies_before(x, k, e) && x != here implies fault_of(
                    terrain,
                    x,
                ) is None by {
                    assert(lies_before(x, k, e - 1));
                }
                if with_edge(before, start, edges[e - 1], terrain.offsets) is Err {
                    assert(terrain.keeps(here));
                    assert forall|y: Source| #[trigger]
                        terrain.keeps(y) && stands_before(y, here) implies fault_of(terrain, y)
                        is None by {
                        assert(lies_before(y, k, e - 1));
                    }
                    assert(first_fault(terrain, here, k, e));
                }
            },
        }
    }
}

/// A tile cannot be extracted exactly if an edge that leads on cannot, and fails as the first such
/// edge does.
pub proof fn lemma_tile_fails_first(shard: ShardView, terrain: Terrain, k: int)
    requires
        0 <= k <= terrain.nodes.len(),
        terrain.raw_offset + terrain.nodes.len() <= 0x1_0000_0000,
    ensures
        fails_first(
            terrain,
            k,
            0,
            with_nodes(shard, terrain.raw_offset, terrain.nodes, terrain.offsets, k),
        ),
    decreases k,
{
    if k > 0 {
        lemma_tile_fails_first(shard, terrain, k - 1);
        let node = terrain.nodes[k - 1];
        let n = node.edges@.len() as int;
        match with_nodes(shard, terrain.raw_offset, terrain.nodes, terrain.offsets, k - 1) {
            Err(err) => {
                let x = choose|x: Source| #[trigger]
                    first_fault(terrain, x, k - 1, 0) && fault_of(terrain, x) == Some(err);
                assert(first_fault(terrain, x, k, 0));
            },
            Ok(before) => {
                if node.pedestrian {
                    lemma_edges_fault(before, terrain, k - 1, n);
                    let after = with_edges(
                        before,
                        (terrain.raw_offset + k - 1) as u32,
                        node.edges@,
                        terrain.offsets,
                        n,
                    );
                    if after is Err {
                        let x = choose|x: Source| #[trigger]
                            first_fault(terrain, x, k - 1, n) && fault_of(terrain, x) == Some(
                                after->Err_0,
                            );
                        assert(first_fault(terrain, x, k, 0));
                    } else {
                        assert forall|x: Source| #[trigger]
                            terrain.keeps(x) && lies_before(x, k, 0) implies fault_of(
                            terrain,
                            x,
                        ) is None by {
                            assert(lies_before(x, k - 1, n));
                        }
                    }
                } else {
                    assert forall|x: Source| #[trigger]
                        terrain.keeps(x) && lies_before(x, k, 0) implies fault_of(terrain, x)
                        is None by {
                        assert(lies_before(x, k - 1, 0));
                    }
                }
            },
        }
    }
}

proof fn lemma_edges_grow(
    shard: ShardView,
    start_raw: u32,
    edges: Seq<EdgeFacts>,
    offsets: Map<u64, u32>,
    k: int,
)
    requires
        with_edges(shard, start_raw, edges, offsets, k) is Ok,
    ensures
        shard.metadata_shapes.len() <= with_edges(
            shard,
            start_raw,
            edges,
            offsets,
            k,
        )->Ok_0.metadata_shapes.len(),
    decreases k,
{
    if k > 0 {
        lemma_edges_grow(shard, start_raw, edges, offsets, k - 1);
    }
}

proof fn lemma_whole_fits(bits: u64)
    requires
        rank_of(bits) is Some,
        0 <= rank_of(bits)->0 <= LARGEST_RANK,
    ensures
        0 <= whole_part(rank_of(bits)->0) <= u32::MAX,
{
    let rank = rank_of(bits)->0;
    let exponent = rank / 0x10_0000_0000_0000;
    let significand = 0x10_0000_0000_0000 + rank % 0x10_0000_0000_0000;
    if exponent >= 1023 {
        let shift = (1075 - exponent) as nat;
        if shift > 21 {
            vstd::arithmetic::power2::lemma_pow2_strictly_increases(21, shift);
        }
        vstd::arithmetic::power2::lemma2_to64();
        let unit = pow2(shift) as int;
        vstd::arithmetic::div_mod::lemma_fundamental_div_mod(significand, unit);
        vstd::arithmetic::div_mod::lemma_mod_bound(significand, unit);
        let v = significand / unit;
        assert(v <= u32::MAX) by (nonlinear_arith)
            requires
                significand == unit * v + significand % unit,
                significand % unit >= 0,
                significand < 0x20_0000_0000_0000,
                unit >= 0x20_0000,
        ;
        assert(v >= 0) by (nonlinear_arith)
            requires
                significand == unit * v + significand % unit,
                significand % unit < unit,
                significand >= 0,
                unit >= 1,
        ;
    }
}

impl RawShard {
    pub fn new() -> (shard: RawShard)
        ensures
            shard@.graph_edges.len() == 0,
            shard@.points.len() == 0,
            shard@.metadata_records.len() == 0,
            shard@.metadata_shapes.len() == 0,
            shard_ok(shard@),
    {
        RawShard {
            graph_edges: Vec::new(),
            points: Vec::new(),
            metadata_records: Vec::new(),
            metadata_shapes: Vec::new(),
        }
    }

    fn add_points(&mut self, cells: &Vec<u64>, raw_node: u32)
        ensures
            final(self)@ == (ShardView {
                points: old(self)@.points + points_of(cells@, raw_node),
                ..old(self)@
            }),
    {
        let ghost before = self.points@;
        let mut i: usize = 0;
        while i < cells.len()
            invariant
                i <= cells@.len(),
                self.points@ == before + points_of(cells@.take(i as int), raw_node),
                self.graph_edges == old(self).graph_edges,
                self.metadata_records == old(self).metadata_records,
                self.metadata_shapes == old(self).metadata_shapes,
            decreases cells@.len() - i,
        {
            self.points.push(PointRecord { cell: cells[i], raw_node });
            assert(points_of(cells@.take(i + 1), raw_node) =~= points_of(
                cells@.take(i as int),
                raw_node,
            ).push(PointRecord { cell: cells@[i as int], raw_node }));
            i = i + 1;
        }
        assert(cells@.take(cells@.len() as int) =~= cells@);
    }

    fn add_shape(&mut self, shape: &Vec<u8>)
        ensures
            final(self)@ == (ShardView {
                metadata_shapes: old(self)@.metadata_shapes + shape@,
                ..old(self)@
            }),
    {
        let ghost before = self.metadata_shapes@;
        let mut i: usize = 0;
        while i < shape.len()
            invariant
                i <= shape@.len(),
                self.metadata_shapes@ == before + shape@.take(i as int),
                self.graph_edges == old(self).graph_edges,
                self.metadata_records == old(self).metadata_records,
                self.points == old(self).points,
            decreases shape@.len() - i,
        {
            self.metadata_shapes.push(shape[i]);
            assert(shape@.take(i + 1) =~= shape@.take(i as int).push(shape@[i as int]));
            i = i + 1;
        }
        assert(shape@.take(shape@.len() as int) =~= shape@);
    }

    /// Extracts an edge that leaves a raw node.
    pub fn extract_edge(
        &mut self,
        start_raw: u32,
        edge: &EdgeFacts,
        offsets: &HashMap<u64, u32>,
    ) -> (r: Result<(), ExtractError>)
        requires
            edge_fits(*edge, offsets@),
        ensures
            match with_edge(old(self)@, start_raw, *edge, offsets@) {
                Ok(shard) => r is Ok && final(self)@ == shard,
                Err(err) => r == Err::<(), _>(err),
            },
            shard_ok(old(self)@) && r is Ok ==> shard_ok(final(self)@),
    {
        broadcast use vstd::std_specs::hash::group_hash_axioms;

        let ghost before = self@;
        if should_skip_edge(edge) {
            return Ok(());
        }
        self.add_points(&edge.shape_cells, start_raw);
        let end_raw: u32 = match offsets.get(&edge.end_tile) {
            Some(offset) => *offset + edge.end_index,
            None => {
                return Ok(());
            },
        };
        if end_raw == start_raw {
            return Ok(());
        }
        let weight_mm: u32 = match f64_to_u32(edge.millimetres_bits) {
            Ok(weight_mm) => weight_mm,
            Err(_) => {
                return Err(ExtractError::WeightDoesNotFit);
            },
        };
        let shape: &Vec<u8> = match &edge.encoded_shape {
            Some(shape) => shape,
            None => {
                return Err(ExtractError::ShapeNotEncoded);
            },
        };
        if shape.len() > u32::MAX as usize {
            return Err(ExtractError::ShapeTooLong);
        }
        self.metadata_records.push(
            RawMetadataRecord {
                from_raw: start_raw,
                to_raw: end_raw,
                length_bits: edge.length_bits,
                shape_offset: self.metadata_shapes.len() as u64,
                shape_len: shape.len() as u32,
            },
        );
        self.add_shape(shape);
        if edge.forward_pedestrian {
            self.graph_edges.push(
                RawGraphEdgeRecord { from_raw: start_raw, to_raw: end_raw, weight_mm },
            );
        }
        if edge.reverse_pedestrian {
            self.graph_edges.push(
                RawGraphEdgeRecord { from_raw: end_raw, to_raw: start_raw, weight_mm },
            );
        }
        assert(self@.graph_edges =~= before.graph_edges + ways_of(
            *edge,
            start_raw,
            end_raw,
            weight_mm,
        ));
        assert(self@ =~= with_edge(before, start_raw, *edge, offsets@)->Ok_0);
        Ok(())
    }

    /// Extracts a tile.
    pub fn extract_tile(
        &mut self,
        tile: &TileManifestEntry,
        nodes: &[NodeFacts],
        offsets: &HashMap<u64, u32>,
    ) -> (r: Result<(), ExtractError>)
        requires
            nodes@.len() == tile.node_count,
            tile.raw_offset + tile.node_count <= 0x1_0000_0000,
            forall|k: int, e: int|
                0 <= k < nodes@.len() && 0 <= e < nodes@[k].edges@.len() ==> edge_fits(
                    #[trigger] nodes@[k].edges@[e],
                    offsets@,
                ),
        ensures
            match with_nodes(
                old(self)@,
                tile.raw_offset,
                nodes@,
                offsets@,
                nodes@.len() as int,
            ) {
                Ok(shard) => r is Ok && final(self)@ == shard,
                Err(err) => r == Err::<(), _>(err),
            },
            shard_ok(old(self)@) && r is Ok ==> shard_ok(final(self)@),
            r is Ok ==> exists|ways: Seq<Source>, points: Seq<Source>, records: Seq<Source>|
                #[trigger] extracts(
                    old(self)@,
                    final(self)@,
                    (Terrain { raw_offset: tile.raw_offset, nodes: nodes@, offsets: offsets@ }),
                    nodes@.len() as int,
                    0,
                    ways,
                    points,
                    records,
                ),
    {
        let ghost before = self@;
        let ghost n = nodes@.len() as int;
        let mut k: usize = 0;
        while k < nodes.len()
            invariant
                before == old(self)@,
                k <= nodes@.len() == n == tile.node_count,
                tile.raw_offset + tile.node_count <= 0x1_0000_0000,
                forall|k: int, e: int|
                    0 <= k < nodes@.len() && 0 <= e < nodes@[k].edges@.len() ==> edge_fits(
                        #[trigger] nodes@[k].edges@[e],
                        offsets@,
                    ),
                with_nodes(before, tile.raw_offset, nodes@, offsets@, k as int) == Ok::<
                    _,
                    ExtractError,
                >(self@),
                shard_ok(before) ==> shard_ok(self@),
            decreases nodes@.len() - k,
        {
            let node: &NodeFacts = &nodes[k];
            if node.pedestrian {
                let start_raw: u32 = tile.raw_offset + k as u32;
                let ghost here = self@;
                let ghost edges = nodes@[k as int].edges@;
                let mut e: usize = 0;
                while e < node.edges.len()
                    invariant
                        before == old(self)@,
                        k < nodes@.len() == n,
                        *node == nodes@[k as int],
                        edges == nodes@[k as int].edges@,
                        e <= node.edges@.len(),
                        forall|k: int, e: int|
                            0 <= k < nodes@.len() && 0 <= e < nodes@[k].edges@.len() ==> edge_fits(
                                #[trigger] nodes@[k].edges@[e],
                                offsets@,
                            ),
                        start_raw == tile.raw_offset + k,
                        with_nodes(before, tile.raw_offset, nodes@, offsets@, k as int) == Ok::<
                            _,
                            ExtractError,
                        >(here),
                        with_edges(here, start_raw, edges, offsets@, e as int) == Ok::<
                            _,
                            ExtractError,
                        >(self@),
                        shard_ok(before) ==> shard_ok(self@),
                        node.pedestrian,
                    decreases node.edges@.len() - e,
                {
                    assert(edge_fits(nodes@[k as int].edges@[e as int], offsets@));
                    match self.extract_edge(start_raw, &node.edges[e], offsets) {
                        Ok(_) => {},
                        Err(err) => {
                            proof {
                                lemma_edges_fail(
                                    here,
                                    start_raw,
                                    edges,
                                    offsets@,
                                    e + 1,
                                    edges.len() as int,
                                );
                                lemma_nodes_fail(
                                    before,
                                    tile.raw_offset,
                                    nodes@,
                                    offsets@,
                                    k + 1,
                                    n,
                                );
                            }
                            return Err(err);
                        },
                    }
                    e = e + 1;
                }
            }
            k = k + 1;
        }
        proof {
            assert(self.metadata_shapes.len() == self@.metadata_shapes.len());
            let terrain = Terrain {
                raw_offset: tile.raw_offset,
                nodes: nodes@,
                offsets: offsets@,
            };
            let (ways, points, records) = lemma_tile_extracted(before, terrain, n);
            assert(extracts(before, self@, terrain, n, 0, ways, points, records));
        }
        Ok(())
    }
}

/// Once an edge fails, so does what follows it.
proof fn lemma_edges_fail(
    shard: ShardView,
    start_raw: u32,
    edges: Seq<EdgeFacts>,
    offsets: Map<u64, u32>,
    j: int,
    k: int,
)
    requires
        j <= k,
        with_edges(shard, start_raw, edges, offsets, j) is Err,
    ensures
        with_edges(shard, start_raw, edges, offsets, k) == with_edges(
            shard,
            start_raw,
            edges,
            offsets,
            j,
        ),
    decreases k,
{
    if j < k {
        lemma_edges_fail(shard, start_raw, edges, offsets, j, k - 1);
    }
}

/// Once a node fails, so does what follows it.
proof fn lemma_nodes_fail(
    shard: ShardView,
    raw_offset: u32,
    nodes: Seq<NodeFacts>,
    offsets: Map<u64, u32>,
    j: int,
    k: int,
)
    requires
        j <= k,
        with_nodes(shard, raw_offset, nodes, offsets, j) is Err,
    ensures
        with_nodes(shard, raw_offset, nodes, offsets, k) == with_nodes(
            shard,
            raw_offset,
            nodes,
            offsets,
            j,
        ),
    decreases k,
{
    if j < k {
        lemma_nodes_fail(shard, raw_offset, nodes, offsets, j, k - 1);
    }
}

} // verus!
