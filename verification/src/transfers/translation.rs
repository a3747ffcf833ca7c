//! From raw to compact nodes: the shards of the graph and of its metadata, and which metadata of an
//! edge is kept.

use crate::timetable::distance::Distance;
use crate::counting::{lemma_select_more, positions, selects};
use crate::transfers::mapping::{
    lemma_rank_counts, lemma_rank_grows, marked, names, RawNodeMapping,
};
use crate::transfers::records::{
    CompactGraphEdgeRecord, CompactMetadataRecord, CompactPointRecord, PointRecord,
    RawGraphEdgeRecord, RawMetadataRecord,
};
use vstd::prelude::*;

verus! {

/// How many buckets points are put into.
pub const POINT_BUCKET_COUNT: usize = 4096;

/// The bucket of a cell: its twelve highest bits.
pub open spec fn bucket_of(cell: u64) -> int {
    cell as int / 0x10_0000_0000_0000
}

/// The bucket of a cell.
pub fn point_bucket(cell: u64) -> (bucket: u16)
    ensures
        bucket == bucket_of(cell),
        bucket < 4096,
{
    (cell / 0x10_0000_0000_0000) as u16
}

/// A way between compact nodes, if both of its nodes have a number.
pub open spec fn compact_edge(
    mapping: &RawNodeMapping,
    edge: RawGraphEdgeRecord,
) -> Option<CompactGraphEdgeRecord> {
    match (mapping.compact(edge.from_raw), mapping.compact(edge.to_raw)) {
        (Some(from), Some(to)) => Some(
            CompactGraphEdgeRecord { from, to, weight_mm: edge.weight_mm },
        ),
        _ => None,
    }
}

/// The ways of the first `k` raw edges whose nodes have numbers, in order.
pub open spec fn compact_edges(
    mapping: &RawNodeMapping,
    edges: Seq<RawGraphEdgeRecord>,
    k: int,
) -> Seq<CompactGraphEdgeRecord>
    decreases k,
{
    if k <= 0 {
        Seq::empty()
    } else {
        match compact_edge(mapping, edges[k - 1]) {
            Some(edge) => compact_edges(mapping, edges, k - 1).push(edge),
            None => compact_edges(mapping, edges, k - 1),
        }
    }
}

/// The points among the first `k` that belong in a bucket and whose node has a number, in order.
pub open spec fn compact_points(
    mapping: &RawNodeMapping,
    points: Seq<PointRecord>,
    bucket: int,
    k: int,
) -> Seq<CompactPointRecord>
    decreases k,
{
    if k <= 0 {
        Seq::empty()
    } else {
        let before = compact_points(mapping, points, bucket, k - 1);
        match mapping.compact(points[k - 1].raw_node) {
            Some(compact_node) => if bucket_of(points[k - 1].cell) == bucket {
                before.push(CompactPointRecord { cell: points[k - 1].cell, compact_node })
            } else {
                before
            },
            None => before,
        }
    }
}

/// Translates the ways of a shard.
pub fn translate_edges(edges: &[RawGraphEdgeRecord], mapping: &RawNodeMapping) -> (compact: Vec<
    CompactGraphEdgeRecord,
>)
    requires
        mapping.wf(),
    ensures
        compact@ == compact_edges(mapping, edges@, edges@.len() as int),
        ways_translated(mapping, edges@, compact@),
{
    proof {
        let n = edges@.len() as int;
        let from = lemma_ways_translated(mapping, edges@, n);
        assert(translated_ways(mapping, edges@, n, compact_edges(mapping, edges@, n), from));
    }
    let mut compact: Vec<CompactGraphEdgeRecord> = Vec::new();
    let mut k: usize = 0;
    while k < edges.len()
        invariant
            mapping.wf(),
            k <= edges@.len(),
            compact@ == compact_edges(mapping, edges@, k as int),
        decreases edges@.len() - k,
    {
        let edge: RawGraphEdgeRecord = edges[k];
        match (mapping.compact_node_id(edge.from_raw), mapping.compact_node_id(edge.to_raw)) {
            (Some(from), Some(to)) => {
                compact.push(CompactGraphEdgeRecord { from, to, weight_mm: edge.weight_mm });
            },
            _ => {},
        }
        k = k + 1;
    }
    compact
}

/// Translates the points of a shard, and puts each into its bucket.
pub fn translate_points(points: &[PointRecord], mapping: &RawNodeMapping) -> (buckets: Vec<
    Vec<CompactPointRecord>,
>)
    requires
        mapping.wf(),
    ensures
        buckets@.len() == POINT_BUCKET_COUNT,
        forall|b: int|
            0 <= b < POINT_BUCKET_COUNT ==> (#[trigger] buckets@[b])@ == compact_points(
                mapping,
                points@,
                b,
                points@.len() as int,
            ),
        forall|b: int|
            0 <= b < POINT_BUCKET_COUNT ==> bucket_translated(
                mapping,
                points@,
                b,
                (#[trigger] buckets@[b])@,
            ),
{
    let mut buckets: Vec<Vec<CompactPointRecord>> = Vec::new();
    let mut b: usize = 0;
    while b < POINT_BUCKET_COUNT
        invariant
            b == buckets@.len() <= POINT_BUCKET_COUNT,
            forall|c: int| 0 <= c < b ==> (#[trigger] buckets@[c])@.len() == 0,
        decreases POINT_BUCKET_COUNT - b,
    {
        buckets.push(Vec::new());
        b = b + 1;
    }
    assert forall|c: int| 0 <= c < POINT_BUCKET_COUNT implies (#[trigger] buckets@[c])@
        == compact_points(mapping, points@, c, 0) by {
        assert(buckets@[c]@ =~= Seq::empty());
    }
    let mut k: usize = 0;
    while k < points.len()
        invariant
            mapping.wf(),
            k <= points@.len(),
            buckets@.len() == POINT_BUCKET_COUNT,
            forall|c: int|
                0 <= c < POINT_BUCKET_COUNT ==> (#[trigger] buckets@[c])@ == compact_points(
                    mapping,
                    points@,
                    c,
                    k as int,
                ),
        decreases points@.len() - k,
    {
        let point: PointRecord = points[k];
        let ghost before = buckets@;
        if let Some(compact_node) = mapping.compact_node_id(point.raw_node) {
            let bucket: usize = point_bucket(point.cell) as usize;
            buckets[bucket].push(CompactPointRecord { cell: point.cell, compact_node });
            assert forall|c: int| 0 <= c < POINT_BUCKET_COUNT implies (#[trigger] buckets@[c])@
                == compact_points(mapping, points@, c, k + 1) by {
                assert(before[c]@ == compact_points(mapping, points@, c, k as int));
                if c != bucket {
                    assert(buckets@[c] == before[c]);
                }
            }
        } else {
            assert forall|c: int| 0 <= c < POINT_BUCKET_COUNT implies (#[trigger] buckets@[c])@
                == compact_points(mapping, points@, c, k + 1) by {
                assert(before[c]@ == compact_points(mapping, points@, c, k as int));
            }
        }
        k = k + 1;
    }
    proof {
        let n = points@.len() as int;
        assert forall|b: int| 0 <= b < POINT_BUCKET_COUNT implies bucket_translated(
            mapping,
            points@,
            b,
            (#[trigger] buckets@[b])@,
        ) by {
            let from = lemma_points_translated(mapping, points@, b, n);
            assert(translated_points(mapping, points@, b, n, buckets@[b]@, from));
        }
    }
    buckets
}

/// Where every node that a shard names has a number, no way of it is lost, and all ways keep
/// their weights.
pub proof fn lemma_no_way_lost(
    mapping: &RawNodeMapping,
    edges: Seq<RawGraphEdgeRecord>,
    points: Seq<PointRecord>,
    k: int,
)
    requires
        0 <= k <= edges.len(),
        forall|j: int| names(edges, points, j) ==> #[trigger] marked(mapping.bits@, j),
    ensures
        compact_edges(mapping, edges, k).len() == k,
        forall|i: int|
            0 <= i < k ==> (#[trigger] compact_edges(mapping, edges, k)[i]).weight_mm
                == edges[i].weight_mm,
    decreases k,
{
    if k > 0 {
        lemma_no_way_lost(mapping, edges, points, k - 1);
        let edge = edges[k - 1];
        assert(names(edges, points, edge.from_raw as int));
        assert(names(edges, points, edge.to_raw as int));
        assert(marked(mapping.bits@, edge.from_raw as int));
        assert(marked(mapping.bits@, edge.to_raw as int));
    }
}

/// Raw node `raw` occurs, and `id` of those that occur come before it.
pub open spec fn numbered(mapping: &RawNodeMapping, raw: u32, id: u32) -> bool {
    &&& marked(mapping.bits@, raw as int)
    &&& id == positions(raw as int, |i: int| marked(mapping.bits@, i)).len()
}

/// Both ends of a way occur.
pub open spec fn joins_nodes(
    mapping: &RawNodeMapping,
    edges: Seq<RawGraphEdgeRecord>,
    i: int,
) -> bool {
    marked(mapping.bits@, edges[i].from_raw as int) && marked(
        mapping.bits@,
        edges[i].to_raw as int,
    )
}

/// `compact` are the ways whose ends both occur, all of them, in their order and with their
/// weights, between the numbers of their ends; `from` says which they are.
pub open spec fn translated_ways(
    mapping: &RawNodeMapping,
    edges: Seq<RawGraphEdgeRecord>,
    k: int,
    compact: Seq<CompactGraphEdgeRecord>,
    from: Seq<int>,
) -> bool {
    &&& from.len() == compact.len()
    &&& selects(from, k, |i: int| joins_nodes(mapping, edges, i))
    &&& forall|j: int|
        0 <= j < from.len() ==> {
            &&& numbered(mapping, edges[#[trigger] from[j]].from_raw, compact[j].from)
            &&& numbered(mapping, edges[from[j]].to_raw, compact[j].to)
            &&& compact[j].weight_mm == edges[from[j]].weight_mm
        }
}

/// `compact` are the ways whose ends both occur.
pub open spec fn ways_translated(
    mapping: &RawNodeMapping,
    edges: Seq<RawGraphEdgeRecord>,
    compact: Seq<CompactGraphEdgeRecord>,
) -> bool {
    exists|from: Seq<int>| #[trigger]
        translated_ways(mapping, edges, edges.len() as int, compact, from)
}

/// A node's number is how many nodes that occur come before it.
pub proof fn lemma_numbered(mapping: &RawNodeMapping, raw: u32)
    requires
        mapping.wf(),
    ensures
        mapping.compact(raw) is Some <==> marked(mapping.bits@, raw as int),
        mapping.compact(raw) matches Some(id) ==> numbered(mapping, raw, id),
{
    if marked(mapping.bits@, raw as int) {
        lemma_rank_counts(mapping.bits@, raw as int);
        lemma_rank_grows(
            mapping.bits@,
            raw as int,
            64 * mapping.bits@.len() as int,
        );
    }
}

/// What the ways of a shard become.
pub proof fn lemma_ways_translated(
    mapping: &RawNodeMapping,
    edges: Seq<RawGraphEdgeRecord>,
    k: int,
) -> (from: Seq<int>)
    requires
        mapping.wf(),
        0 <= k <= edges.len(),
    ensures
        translated_ways(mapping, edges, k, compact_edges(mapping, edges, k), from),
    decreases k,
{
    let wanted = |i: int| joins_nodes(mapping, edges, i);
    if k <= 0 {
        Seq::empty()
    } else {
        let before = lemma_ways_translated(mapping, edges, k - 1);
        lemma_select_more(before, k - 1, wanted);
        lemma_numbered(mapping, edges[k - 1].from_raw);
        lemma_numbered(mapping, edges[k - 1].to_raw);
        let had = compact_edges(mapping, edges, k - 1);
        let all = compact_edges(mapping, edges, k);
        if wanted(k - 1) {
            let from = before.push(k - 1);
            assert forall|j: int| 0 <= j < from.len() implies {
                &&& numbered(mapping, edges[#[trigger] from[j]].from_raw, all[j].from)
                &&& numbered(mapping, edges[from[j]].to_raw, all[j].to)
                &&& all[j].weight_mm == edges[from[j]].weight_mm
            } by {
                if j < before.len() {
                    assert(from[j] == before[j]);
                    assert(all[j] == had[j]);
                }
            }
            from
        } else {
            before
        }
    }
}

/// A point whose node occurs, and whose cell begins with the twelve bits of a bucket.
pub open spec fn falls_in(
    mapping: &RawNodeMapping,
    points: Seq<PointRecord>,
    bucket: int,
    i: int,
) -> bool {
    marked(mapping.bits@, points[i].raw_node as int) && points[i].cell as int
        / 0x10_0000_0000_0000 == bucket
}

/// `compact` are the points of a bucket whose nodes occur, all of them, in their order, with the
/// numbers of their nodes; `from` says which they are.
pub open spec fn translated_points(
    mapping: &RawNodeMapping,
    points: Seq<PointRecord>,
    bucket: int,
    k: int,
    compact: Seq<CompactPointRecord>,
    from: Seq<int>,
) -> bool {
    &&& from.len() == compact.len()
    &&& selects(from, k, |i: int| falls_in(mapping, points, bucket, i))
    &&& forall|j: int|
        0 <= j < from.len() ==> {
            &&& compact[j].cell == points[#[trigger] from[j]].cell
            &&& numbered(mapping, points[from[j]].raw_node, compact[j].compact_node)
        }
}

/// `compact` are the points of a bucket whose nodes occur.
pub open spec fn bucket_translated(
    mapping: &RawNodeMapping,
    points: Seq<PointRecord>,
    bucket: int,
    compact: Seq<CompactPointRecord>,
) -> bool {
    exists|from: Seq<int>| #[trigger]
        translated_points(mapping, points, bucket, points.len() as int, compact, from)
}

/// What the points of a shard become.
pub proof fn lemma_points_translated(
    mapping: &RawNodeMapping,
    points: Seq<PointRecord>,
    bucket: int,
    k: int,
) -> (from: Seq<int>)
    requires
        mapping.wf(),
        0 <= k <= points.len(),
    ensures
        translated_points(
            mapping,
            points,
            bucket,
            k,
            compact_points(mapping, points, bucket, k),
            from,
        ),
    decreases k,
{
    let wanted = |i: int| falls_in(mapping, points, bucket, i);
    if k <= 0 {
        Seq::empty()
    } else {
        let before = lemma_points_translated(mapping, points, bucket, k - 1);
        lemma_select_more(before, k - 1, wanted);
        lemma_numbered(mapping, points[k - 1].raw_node);
        let had = compact_points(mapping, points, bucket, k - 1);
        let all = compact_points(mapping, points, bucket, k);
        if wanted(k - 1) {
            let from = before.push(k - 1);
            assert forall|j: int| 0 <= j < from.len() implies {
                &&& all[j].cell == points[#[trigger] from[j]].cell
                &&& numbered(mapping, points[from[j]].raw_node, all[j].compact_node)
            } by {
                if j < before.len() {
                    assert(from[j] == before[j]);
                    assert(all[j] == had[j]);
                }
            }
            from
        } else {
            before
        }
    }
}

/// Where every node that a shard names has a number, no point of it is lost: each is in its bucket,
/// with its cell and its node's number.
pub proof fn lemma_no_point_lost(
    mapping: &RawNodeMapping,
    edges: Seq<RawGraphEdgeRecord>,
    points: Seq<PointRecord>,
    i: int,
) -> (j: int)
    requires
        mapping.wf(),
        0 <= i < points.len(),
        forall|j: int| names(edges, points, j) ==> #[trigger] marked(mapping.bits@, j),
    ensures
        ({
            let bucket = points[i].cell as int / 0x10_0000_0000_0000;
            let compact = compact_points(mapping, points, bucket, points.len() as int);
            &&& 0 <= bucket < 4096
            &&& 0 <= j < compact.len()
            &&& compact[j].cell == points[i].cell
            &&& numbered(mapping, points[i].raw_node, compact[j].compact_node)
        }),
{
    let bucket = points[i].cell as int / 0x10_0000_0000_0000;
    let n = points.len() as int;
    let from = lemma_points_translated(mapping, points, bucket, n);
    assert(names(edges, points, points[i].raw_node as int));
    assert(marked(mapping.bits@, points[i].raw_node as int));
    assert(falls_in(mapping, points, bucket, i));
    assert(from.contains(i));
    from.index_of(i)
}

/// Both ends of an edge occur.
pub open spec fn tells_of_nodes(
    mapping: &RawNodeMapping,
    records: Seq<RawMetadataRecord>,
    i: int,
) -> bool {
    marked(mapping.bits@, records[i].from_raw as int) && marked(
        mapping.bits@,
        records[i].to_raw as int,
    )
}

/// `view` holds the metadata of the edges whose ends both occur, all of it, in its order: between
/// the numbers of their ends, with their lengths, and with the shapes that `shapes` holds for them;
/// `from` says which they are.
pub open spec fn prepared_from(
    mapping: &RawNodeMapping,
    records: Seq<RawMetadataRecord>,
    shapes: Seq<u8>,
    k: int,
    view: PreparedView,
    from: Seq<int>,
) -> bool {
    &&& from.len() == view.records.len()
    &&& selects(from, k, |i: int| tells_of_nodes(mapping, records, i))
    &&& forall|j: int|
        0 <= j < from.len() ==> {
            let raw = records[#[trigger] from[j]];
            let record = view.records[j];
            &&& numbered(mapping, raw.from_raw, record.from)
            &&& numbered(mapping, raw.to_raw, record.to)
            &&& record.length_bits == raw.length_bits
            &&& raw.shape_offset + raw.shape_len <= shapes.len()
            &&& record.shape_offset + record.shape_len <= view.shapes.len()
            &&& view.shapes.subrange(
                record.shape_offset as int,
                record.shape_offset + record.shape_len,
            ) == shapes.subrange(raw.shape_offset as int, raw.shape_offset + raw.shape_len)
        }
}

/// What the metadata of a shard becomes.
pub proof fn lemma_metadata_prepared(
    mapping: &RawNodeMapping,
    records: Seq<RawMetadataRecord>,
    shapes: Seq<u8>,
    k: int,
) -> (from: Seq<int>)
    requires
        mapping.wf(),
        0 <= k <= records.len(),
        prepared(mapping, records, shapes, k) is Ok,
        prepared(mapping, records, shapes, k)->Ok_0.shapes.len() <= u64::MAX,
    ensures
        prepared_from(
            mapping,
            records,
            shapes,
            k,
            prepared(mapping, records, shapes, k)->Ok_0,
            from,
        ),
    decreases k,
{
    let wanted = |i: int| tells_of_nodes(mapping, records, i);
    if k <= 0 {
        Seq::empty()
    } else {
        let record = records[k - 1];
        lemma_numbered(mapping, record.from_raw);
        lemma_numbered(mapping, record.to_raw);
        let had = prepared(mapping, records, shapes, k - 1)->Ok_0;
        let all = prepared(mapping, records, shapes, k)->Ok_0;
        assert(had.shapes.len() <= all.shapes.len());
        let before = lemma_metadata_prepared(mapping, records, shapes, k - 1);
        lemma_select_more(before, k - 1, wanted);
        if wanted(k - 1) {
            let from = before.push(k - 1);
            assert forall|j: int| 0 <= j < from.len() implies {
                let raw = records[#[trigger] from[j]];
                let kept = all.records[j];
                &&& numbered(mapping, raw.from_raw, kept.from)
                &&& numbered(mapping, raw.to_raw, kept.to)
                &&& kept.length_bits == raw.length_bits
                &&& raw.shape_offset + raw.shape_len <= shapes.len()
                &&& kept.shape_offset + kept.shape_len <= all.shapes.len()
                &&& all.shapes.subrange(
                    kept.shape_offset as int,
                    kept.shape_offset + kept.shape_len,
                ) == shapes.subrange(raw.shape_offset as int, raw.shape_offset + raw.shape_len)
            } by {
                let kept = all.records[j];
                let raw = records[from[j]];
                if j < before.len() {
                    assert(from[j] == before[j]);
                    assert(kept == had.records[j]);
                    assert(all.shapes.subrange(
                        kept.shape_offset as int,
                        kept.shape_offset + kept.shape_len,
                    ) =~= had.shapes.subrange(
                        kept.shape_offset as int,
                        kept.shape_offset + kept.shape_len,
                    ));
                } else {
                    assert(all.shapes.subrange(
                        kept.shape_offset as int,
                        kept.shape_offset + kept.shape_len,
                    ) =~= shapes.subrange(
                        raw.shape_offset as int,
                        raw.shape_offset + raw.shape_len,
                    ));
                }
            }
            from
        } else {
            before
        }
    }
}

/// The metadata of a shard cannot be prepared exactly if a record whose ends both occur names a
/// shape that is not there.
pub proof fn lemma_shape_missing(
    mapping: &RawNodeMapping,
    records: Seq<RawMetadataRecord>,
    shapes: Seq<u8>,
    k: int,
)
    requires
        mapping.wf(),
        0 <= k <= records.len(),
    ensures
        prepared(mapping, records, shapes, k) is Err <==> exists|i: int|
            0 <= i < k && #[trigger] tells_of_nodes(mapping, records, i) && records[i].shape_offset
                + records[i].shape_len > shapes.len(),
    decreases k,
{
    if k > 0 {
        lemma_numbered(mapping, records[k - 1].from_raw);
        lemma_numbered(mapping, records[k - 1].to_raw);
        lemma_shape_missing(mapping, records, shapes, k - 1);
        if prepared(mapping, records, shapes, k - 1) is Err {
            let i = choose|i: int|
                0 <= i < k - 1 && #[trigger] tells_of_nodes(mapping, records, i)
                    && records[i].shape_offset + records[i].shape_len > shapes.len();
            assert(tells_of_nodes(mapping, records, i));
        } else if prepared(mapping, records, shapes, k) is Err {
            assert(tells_of_nodes(mapping, records, k - 1));
        }
    }
}

/// A metadata record names a shape that is not among the shapes.
#[derive(Clone, Copy, PartialEq, Eq, Structural, Debug)]
pub struct ShapeOutOfBounds {}

/// The shape that lies at `offset`.
pub open spec fn shape_at(shapes: Seq<u8>, offset: u64, len: u32) -> Seq<u8> {
    shapes.subrange(offset as int, offset + len)
}

/// The metadata of a shard, with compact nodes and only the shapes that are needed.
#[verifier::ext_equal]
pub struct PreparedView {
    pub records: Seq<CompactMetadataRecord>,
    pub shapes: Seq<u8>,
}

/// The metadata of the first `k` records whose nodes have numbers, in order, each with its shape.
pub open spec fn prepared(
    mapping: &RawNodeMapping,
    records: Seq<RawMetadataRecord>,
    shapes: Seq<u8>,
    k: int,
) -> Result<PreparedView, ShapeOutOfBounds>
    decreases k,
{
    if k <= 0 {
        Ok(PreparedView { records: Seq::empty(), shapes: Seq::empty() })
    } else {
        let record = records[k - 1];
        match prepared(mapping, records, shapes, k - 1) {
            Err(err) => Err(err),
            Ok(before) => match (mapping.compact(record.from_raw), mapping.compact(record.to_raw)) {
                (Some(from), Some(to)) => if record.shape_offset + record.shape_len > shapes.len() {
                    Err(ShapeOutOfBounds {  })
                } else {
                    Ok(
                        PreparedView {
                            records: before.records.push(
                                CompactMetadataRecord {
                                    from,
                                    to,
                                    length_bits: record.length_bits,
                                    shape_offset: before.shapes.len() as u64,
                                    shape_len: record.shape_len,
                                },
                            ),
                            shapes: before.shapes + shape_at(
                                shapes,
                                record.shape_offset,
                                record.shape_len,
                            ),
                        },
                    )
                },
                _ => Ok(before),
            },
        }
    }
}

proof fn lemma_prepared_fails(
    mapping: &RawNodeMapping,
    records: Seq<RawMetadataRecord>,
    shapes: Seq<u8>,
    j: int,
    k: int,
)
    requires
        j <= k,
        prepared(mapping, records, shapes, j) is Err,
    ensures
        prepared(mapping, records, shapes, k) is Err,
    decreases k,
{
    if j < k {
        lemma_prepared_fails(mapping, records, shapes, j, k - 1);
    }
}

/// Every record of `view` names a shape that is among its shapes.
pub open spec fn shapes_in_bounds(view: PreparedView) -> bool {
    forall|i: int|
        0 <= i < view.records.len() ==> {
            let record = #[trigger] view.records[i];
            record.shape_offset + record.shape_len <= view.shapes.len()
        }
}

/// Prepares the metadata of a shard.
pub fn prepare_metadata_shard(
    records: &[RawMetadataRecord],
    raw_shapes: &[u8],
    mapping: &RawNodeMapping,
) -> (r: Result<(Vec<CompactMetadataRecord>, Vec<u8>), ShapeOutOfBounds>)
    requires
        mapping.wf(),
    ensures
        match prepared(mapping, records@, raw_shapes@, records@.len() as int) {
            Ok(view) => {
                &&& r matches Ok((compact, shapes))
                &&& compact@ == view.records
                &&& shapes@ == view.shapes
                &&& shapes_in_bounds(view)
                &&& exists|from: Seq<int>| #[trigger]
                    prepared_from(
                        mapping,
                        records@,
                        raw_shapes@,
                        records@.len() as int,
                        view,
                        from,
                    )
            },
            Err(_) => r is Err,
        },
        r is Err <==> exists|i: int|
            0 <= i < records@.len() && #[trigger] tells_of_nodes(mapping, records@, i)
                && records@[i].shape_offset + records@[i].shape_len > raw_shapes@.len(),
{
    proof {
        lemma_shape_missing(mapping, records@, raw_shapes@, records@.len() as int);
    }
    let mut compact: Vec<CompactMetadataRecord> = Vec::new();
    let mut shapes: Vec<u8> = Vec::new();
    let mut k: usize = 0;
    assert(PreparedView { records: compact@, shapes: shapes@ } =~= PreparedView {
        records: Seq::empty(),
        shapes: Seq::empty(),
    });
    while k < records.len()
        invariant
            mapping.wf(),
            k <= records@.len(),
            prepared(mapping, records@, raw_shapes@, k as int) == Ok::<_, ShapeOutOfBounds>(
                PreparedView { records: compact@, shapes: shapes@ },
            ),
            shapes_in_bounds(PreparedView { records: compact@, shapes: shapes@ }),
        decreases records@.len() - k,
    {
        let record: RawMetadataRecord = records[k];
        match (mapping.compact_node_id(record.from_raw), mapping.compact_node_id(record.to_raw)) {
            (Some(from), Some(to)) => {
                let available: u64 = raw_shapes.len() as u64;
                if record.shape_len as u64 > available || record.shape_offset > available
                    - record.shape_len as u64 {
                    proof {
                        lemma_prepared_fails(
                            mapping,
                            records@,
                            raw_shapes@,
                            k + 1,
                            records@.len() as int,
                        );
                    }
                    proof {
                        lemma_shape_missing(
                            mapping,
                            records@,
                            raw_shapes@,
                            records@.len() as int,
                        );
                    }
                    return Err(ShapeOutOfBounds {  });
                }
                let ghost before = PreparedView { records: compact@, shapes: shapes@ };
                let start: usize = record.shape_offset as usize;
                let len: usize = record.shape_len as usize;
                compact.push(
                    CompactMetadataRecord {
                        from,
                        to,
                        length_bits: record.length_bits,
                        shape_offset: shapes.len() as u64,
                        shape_len: record.shape_len,
                    },
                );
                let ghost shape = shape_at(raw_shapes@, record.shape_offset, record.shape_len);
                let mut i: usize = 0;
                while i < len
                    invariant
                        i <= len,
                        start + len <= raw_shapes@.len(),
                        shape == raw_shapes@.subrange(start as int, start + len),
                        shapes@ == before.shapes + shape.take(i as int),
                    decreases len - i,
                {
                    assert(shape.take(i + 1) =~= shape.take(i as int).push(shape[i as int]));
                    assert(raw_shapes.len() == raw_shapes@.len());
                    shapes.push(raw_shapes[start + i]);
                    i = i + 1;
                }
                assert(shape.take(len as int) =~= shape);
                assert(shapes.len() == shapes@.len());
            },
            _ => {},
        }
        k = k + 1;
    }
    proof {
        let n = records@.len() as int;
        assert(shapes.len() == shapes@.len());
        let from = lemma_metadata_prepared(mapping, records@, raw_shapes@, n);
        assert(prepared_from(
            mapping,
            records@,
            raw_shapes@,
            n,
            prepared(mapping, records@, raw_shapes@, n)->Ok_0,
            from,
        ));
    }
    Ok((compact, shapes))
}

/// What is extracted without fault is prepared without fault.
pub proof fn lemma_shapes_found(
    mapping: &RawNodeMapping,
    records: Seq<RawMetadataRecord>,
    shapes: Seq<u8>,
    k: int,
)
    requires
        0 <= k <= records.len(),
        forall|i: int|
            0 <= i < records.len() ==> (#[trigger] records[i]).shape_offset + records[i].shape_len
                <= shapes.len(),
    ensures
        prepared(mapping, records, shapes, k) is Ok,
    decreases k,
{
    if k > 0 {
        lemma_shapes_found(mapping, records, shapes, k - 1);
        assert(records[k - 1].shape_offset + records[k - 1].shape_len <= shapes.len());
    }
}

/// Where the shape of a record lies among `shapes` bytes.
pub fn shape_range(record: &CompactMetadataRecord, shapes: usize) -> (r: Result<
    (usize, usize),
    ShapeOutOfBounds,
>)
    ensures
        r is Ok <==> record.shape_offset + record.shape_len <= shapes,
        r matches Ok((start, end)) ==> start == record.shape_offset && end == record.shape_offset
            + record.shape_len,
{
    let available: u64 = shapes as u64;
    let len: u64 = record.shape_len as u64;
    if len > available || record.shape_offset > available - len {
        return Err(ShapeOutOfBounds {  });
    }
    let start: usize = record.shape_offset as usize;
    Ok((start, start + record.shape_len as usize))
}

/// The distance with this bit pattern.
pub open spec fn length_of(bits: u64) -> Distance {
    Distance {
        rank: match crate::timetable::distance::rank_of(bits) {
            Some(rank) => Some(rank as i64),
            None => None,
        },
    }
}

/// Whether the length and shape of an edge are stored, given the length that is: if there is none,
/// or a longer one.
pub open spec fn replaces(stored: Option<u64>, length_bits: u64) -> bool {
    match stored {
        None => true,
        Some(previous) => length_of(length_bits).below(length_of(previous)),
    }
}

/// Whether to store the length and shape of an edge, given the length that is stored, if any.
pub fn upsert_edge_metadata(stored: Option<u64>, length_bits: u64) -> (insert: bool)
    ensures
        insert == replaces(stored, length_bits),
{
    match stored {
        None => true,
        Some(previous) => Distance::from_bits(length_bits).is_below(
            &Distance::from_bits(previous),
        ),
    }
}

/// An offer for an edge: between which nodes, and how long, and with which shape.
pub struct Offer {
    pub key: (u64, u64),
    pub length_bits: u64,
    pub shape: Seq<u8>,
}

/// What is stored per edge after the first `k` offers.
pub open spec fn stored(offers: Seq<Offer>, k: int) -> Map<(u64, u64), (u64, Seq<u8>)>
    decreases k,
{
    if k <= 0 {
        Map::empty()
    } else {
        let before = stored(offers, k - 1);
        let offer = offers[k - 1];
        let known = if before.contains_key(offer.key) {
            Some(before[offer.key].0)
        } else {
            None
        };
        if replaces(known, offer.length_bits) {
            before.insert(offer.key, (offer.length_bits, offer.shape))
        } else {
            before
        }
    }
}

/// Of every edge that was offered, the shortest offer is stored, with its shape: no other offer
/// for it is shorter, and of offers of the same length the first is stored, so that all earlier
/// ones whose length is a number are longer.
pub proof fn lemma_shortest_stored(offers: Seq<Offer>, k: int, i: int) -> (j: int)
    requires
        0 <= i < k <= offers.len(),
    ensures
        stored(offers, k).contains_key(offers[i].key),
        0 <= j < k,
        offers[j].key == offers[i].key,
        stored(offers, k)[offers[i].key] == (offers[j].length_bits, offers[j].shape),
        forall|l: int|
            0 <= l < k && (#[trigger] offers[l]).key == offers[i].key ==> !length_of(
                offers[l].length_bits,
            ).below(length_of(offers[j].length_bits)),
        forall|l: int|
            0 <= l < j && (#[trigger] offers[l]).key == offers[i].key && length_of(
                offers[l].length_bits,
            ).rank is Some ==> length_of(offers[j].length_bits).below(
                length_of(offers[l].length_bits),
            ),
    decreases k,
{
    let key = offers[i].key;
    let last = offers[k - 1];
    if exists|l: int| 0 <= l < k - 1 && (#[trigger] offers[l]).key == key {
        let l = choose|l: int| 0 <= l < k - 1 && (#[trigger] offers[l]).key == key;
        let j = lemma_shortest_stored(offers, k - 1, l);
        if last.key == key && replaces(Some(offers[j].length_bits), last.length_bits) {
            k - 1
        } else {
            j
        }
    } else {
        lemma_not_offered(offers, k - 1, key);
        k - 1
    }
}

proof fn lemma_not_offered(offers: Seq<Offer>, k: int, key: (u64, u64))
    requires
        0 <= k <= offers.len(),
        forall|l: int| 0 <= l < k ==> (#[trigger] offers[l]).key != key,
    ensures
        !stored(offers, k).contains_key(key),
    decreases k,
{
    if k > 0 {
        lemma_not_offered(offers, k - 1, key);
        assert(offers[k - 1].key != key);
    }
}

} // verus!
