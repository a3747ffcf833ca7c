//! Shards as they are stored: from the bytes of one stage to those of the next.

use crate::transfers::mapping::RawNodeMapping;
use crate::transfers::records::{
    all_bytes, all_read, lemma_all_read_back, lemma_whole_records_read, read_all, write_all,
    ByteOrder, CompactGraphEdgeRecord, CompactMetadataRecord, CompactPointRecord, PointRecord,
    RawGraphEdgeRecord, RawMetadataRecord, Record, RecordError,
};
use crate::transfers::translation::{
    bucket_translated, compact_edges, compact_points, lemma_metadata_prepared,
    lemma_points_translated, lemma_ways_translated, prepare_metadata_shard, prepared,
    prepared_from, translate_edges, translate_points, translated_points, translated_ways,
    ways_translated, PreparedView, POINT_BUCKET_COUNT,
};
use vstd::prelude::*;

verus! {

/// A translated shard: its ways, and its points by bucket.
#[derive(Debug)]
pub struct TranslatedShard {
    pub compact_graph_edges: Vec<u8>,
    pub point_buckets: Vec<Vec<u8>>,
}

/// The bytes of the points that belong in a bucket.
pub open spec fn bucket_bytes(
    order: ByteOrder,
    mapping: &RawNodeMapping,
    points: Seq<PointRecord>,
    b: int,
) -> Seq<u8> {
    let compact = compact_points(mapping, points, b, points.len() as int);
    all_bytes::<CompactPointRecord>(order, compact, compact.len() as int)
}

/// `translated` holds what the ways and points of a shard become.
pub open spec fn translates(
    order: ByteOrder,
    mapping: &RawNodeMapping,
    edges: Seq<RawGraphEdgeRecord>,
    points: Seq<PointRecord>,
    translated: TranslatedShard,
) -> bool {
    let compact = compact_edges(mapping, edges, edges.len() as int);
    &&& translated.compact_graph_edges@ == all_bytes::<CompactGraphEdgeRecord>(
        order,
        compact,
        compact.len() as int,
    )
    &&& translated.point_buckets@.len() == POINT_BUCKET_COUNT
    &&& forall|b: int|
        0 <= b < POINT_BUCKET_COUNT ==> (#[trigger] translated.point_buckets@[b])@ == bucket_bytes(
            order,
            mapping,
            points,
            b,
        )
}

/// What is stored of a translated shard, read again: the ways between nodes that occur, and in each
/// bucket the points that fall in it, with their nodes' numbers.
pub proof fn lemma_translated_read_back(
    order: ByteOrder,
    mapping: &RawNodeMapping,
    edges: Seq<RawGraphEdgeRecord>,
    points: Seq<PointRecord>,
    translated: TranslatedShard,
    b: int,
)
    requires
        mapping.wf(),
        translates(order, mapping, edges, points, translated),
        0 <= b < 4096,
    ensures
        translated.point_buckets@.len() == 4096,
        all_read::<CompactGraphEdgeRecord>(order, translated.compact_graph_edges@) matches Ok(
            compact,
        ) && ways_translated(mapping, edges, compact),
        all_read::<CompactPointRecord>(order, translated.point_buckets@[b]@) matches Ok(compact)
            && bucket_translated(mapping, points, b, compact),
{
    let ways = compact_edges(mapping, edges, edges.len() as int);
    lemma_all_read_back::<CompactGraphEdgeRecord>(order, ways);
    let from = lemma_ways_translated(mapping, edges, edges.len() as int);
    assert(translated_ways(mapping, edges, edges.len() as int, ways, from));
    let compact = compact_points(mapping, points, b, points.len() as int);
    assert(translated.point_buckets@[b]@ == bucket_bytes(order, mapping, points, b));
    lemma_all_read_back::<CompactPointRecord>(order, compact);
    let at = lemma_points_translated(mapping, points, b, points.len() as int);
    assert(translated_points(mapping, points, b, points.len() as int, compact, at));
}

/// Translates a shard.
pub fn translate_raw_shard(
    order: ByteOrder,
    graph_edges: &[u8],
    points: &[u8],
    mapping: &RawNodeMapping,
) -> (r: Result<TranslatedShard, RecordError>)
    requires
        mapping.wf(),
    ensures
        match (
            all_read::<RawGraphEdgeRecord>(order, graph_edges@),
            all_read::<PointRecord>(order, points@),
        ) {
            (Err(err), _) => r == Err::<TranslatedShard, _>(err),
            (Ok(_), Err(err)) => r == Err::<TranslatedShard, _>(err),
            (Ok(edges), Ok(points)) => {
                &&& r matches Ok(translated)
                &&& translates(order, mapping, edges, points, translated)
            },
        },
{
    let raw_edges: Vec<RawGraphEdgeRecord> = match read_all::<RawGraphEdgeRecord>(
        order,
        graph_edges,
    ) {
        Ok(edges) => edges,
        Err(err) => {
            return Err(err);
        },
    };
    let raw_points: Vec<PointRecord> = match read_all::<PointRecord>(order, points) {
        Ok(points) => points,
        Err(err) => {
            return Err(err);
        },
    };
    let edges: Vec<CompactGraphEdgeRecord> = translate_edges(raw_edges.as_slice(), mapping);
    let mut compact_graph_edges: Vec<u8> = Vec::new();
    write_all::<CompactGraphEdgeRecord>(order, edges.as_slice(), &mut compact_graph_edges);
    assert(compact_graph_edges@ =~= all_bytes::<CompactGraphEdgeRecord>(
        order,
        edges@,
        edges@.len() as int,
    ));
    let buckets: Vec<Vec<CompactPointRecord>> = translate_points(raw_points.as_slice(), mapping);
    let mut point_buckets: Vec<Vec<u8>> = Vec::new();
    let mut b: usize = 0;
    while b < buckets.len()
        invariant
            b <= buckets@.len() == POINT_BUCKET_COUNT,
            point_buckets@.len() == b,
            forall|c: int|
                0 <= c < POINT_BUCKET_COUNT ==> (#[trigger] buckets@[c])@ == compact_points(
                    mapping,
                    raw_points@,
                    c,
                    raw_points@.len() as int,
                ),
            forall|c: int|
                0 <= c < b ==> (#[trigger] point_buckets@[c])@ == bucket_bytes(
                    order,
                    mapping,
                    raw_points@,
                    c,
                ),
        decreases buckets@.len() - b,
    {
        let mut bytes: Vec<u8> = Vec::new();
        write_all::<CompactPointRecord>(order, buckets[b].as_slice(), &mut bytes);
        assert(buckets@[b as int]@ == compact_points(
            mapping,
            raw_points@,
            b as int,
            raw_points@.len() as int,
        ));
        assert(bytes@ =~= bucket_bytes(order, mapping, raw_points@, b as int));
        point_buckets.push(bytes);
        b = b + 1;
    }
    Ok(TranslatedShard { compact_graph_edges, point_buckets })
}

/// Why the metadata of a shard cannot be prepared.
#[derive(Clone, Copy, PartialEq, Eq, Structural, Debug)]
pub enum MetadataError {
    /// A record cannot be read.
    Record(RecordError),
    /// A record names a shape that is not among the shapes.
    ShapeOutOfBounds,
}

/// The records that can be read, up to the first that cannot.
pub open spec fn readable(order: ByteOrder, bytes: Seq<u8>) -> Seq<RawMetadataRecord> {
    Seq::new(bytes.len() / 28, |i: int| RawMetadataRecord::at(order, bytes, i * 28))
}

/// What the metadata of a shard becomes, in bytes: records and shapes.
///
/// Records are prepared as they are read, so a record that cannot be read is only met if every
/// record before it finds its shape.
pub open spec fn prepared_bytes(
    order: ByteOrder,
    mapping: &RawNodeMapping,
    records: Seq<u8>,
    shapes: Seq<u8>,
) -> Result<(Seq<u8>, Seq<u8>), MetadataError> {
    let raw = readable(order, records);
    match (
        prepared(mapping, raw, shapes, raw.len() as int),
        all_read::<RawMetadataRecord>(order, records),
    ) {
        (Err(_), _) => Err(MetadataError::ShapeOutOfBounds),
        (Ok(_), Err(err)) => Err(MetadataError::Record(err)),
        (Ok(view), Ok(_)) => Ok(
            (
                all_bytes::<CompactMetadataRecord>(order, view.records, view.records.len() as int),
                view.shapes,
            ),
        ),
    }
}

/// What is stored of the metadata of a shard, read again: that of the edges between nodes that
/// occur, with their shapes.
pub proof fn lemma_prepared_read_back(
    order: ByteOrder,
    mapping: &RawNodeMapping,
    records: Seq<u8>,
    shapes: Seq<u8>,
)
    requires
        mapping.wf(),
        prepared_bytes(order, mapping, records, shapes) matches Ok((_, kept)) ==> kept.len()
            <= u64::MAX,
    ensures
        prepared_bytes(order, mapping, records, shapes) is Ok ==> records.len() % 28 == 0,
        prepared_bytes(order, mapping, records, shapes) matches Ok((out, kept)) ==> {
            let raw = all_read::<RawMetadataRecord>(order, records)->Ok_0;
            let compact = all_read::<CompactMetadataRecord>(order, out)->Ok_0;
            &&& all_read::<RawMetadataRecord>(order, records) is Ok
            &&& all_read::<CompactMetadataRecord>(order, out) is Ok
            &&& exists|from: Seq<int>| #[trigger]
                prepared_from(
                    mapping,
                    raw,
                    shapes,
                    raw.len() as int,
                    (PreparedView { records: compact, shapes: kept }),
                    from,
                )
        },
{
    lemma_whole_records_read::<RawMetadataRecord>(order, records);
    if prepared_bytes(order, mapping, records, shapes) is Ok {
        let raw = readable(order, records);
        assert(all_read::<RawMetadataRecord>(order, records)->Ok_0 =~= raw);
        let view = prepared(mapping, raw, shapes, raw.len() as int)->Ok_0;
        lemma_all_read_back::<CompactMetadataRecord>(order, view.records);
        let from = lemma_metadata_prepared(mapping, raw, shapes, raw.len() as int);
        assert(view =~= PreparedView { records: view.records, shapes: view.shapes });
        assert(prepared_from(mapping, raw, shapes, raw.len() as int, view, from));
    }
}

/// Prepares the metadata of a shard.
pub fn prepare_metadata(
    order: ByteOrder,
    records: &[u8],
    shapes: &[u8],
    mapping: &RawNodeMapping,
) -> (r: Result<(Vec<u8>, Vec<u8>), MetadataError>)
    requires
        mapping.wf(),
    ensures
        match prepared_bytes(order, mapping, records@, shapes@) {
            Err(err) => r == Err::<(Vec<u8>, Vec<u8>), _>(err),
            Ok((compact, kept)) => {
                &&& r matches Ok((out_records, out_shapes))
                &&& out_records@ == compact
                &&& out_shapes@ == kept
            },
        },
{
    let whole: usize = records.len() / 28;
    let mut raw: Vec<RawMetadataRecord> = Vec::new();
    let mut i: usize = 0;
    while i < whole
        invariant
            i == raw@.len() <= whole,
            whole * 28 <= records@.len() <= usize::MAX,
            forall|j: int|
                0 <= j < i ==> #[trigger] raw@[j] == RawMetadataRecord::at(
                    order,
                    records@,
                    j * 28,
                ),
        decreases whole - i,
    {
        match RawMetadataRecord::read_from(order, records, i * 28) {
            Ok(Some(record)) => {
                raw.push(record);
            },
            _ => {
                assert(false);
            },
        }
        i = i + 1;
    }
    assert(raw@ =~= readable(order, records@));
    let (compact, kept): (Vec<CompactMetadataRecord>, Vec<u8>) = match prepare_metadata_shard(
        raw.as_slice(),
        shapes,
        mapping,
    ) {
        Ok(prepared) => prepared,
        Err(_) => {
            return Err(MetadataError::ShapeOutOfBounds);
        },
    };
    match RawMetadataRecord::read_from(order, records, whole * 28) {
        Err(err) => {
            return Err(MetadataError::Record(err));
        },
        Ok(_) => {},
    }
    let mut out: Vec<u8> = Vec::new();
    write_all::<CompactMetadataRecord>(order, compact.as_slice(), &mut out);
    assert(out@ =~= all_bytes::<CompactMetadataRecord>(order, compact@, compact@.len() as int));
    Ok((out, kept))
}

} // verus!
