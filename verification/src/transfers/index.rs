//! The index from cells to compact nodes: points in the order of their cells.

use crate::sorting::{
    key_before, lemma_stable_order_unique, ordered_by, sort_order, stable_order,
};
use crate::transfers::records::{
    lemma_sizes, lemma_u64_reads_back, stands_at, u64_at, u64_bytes, write_u64, ByteOrder,
    CompactPointRecord,
};
use crate::transfers::translation::bucket_of;
use vstd::prelude::*;

verus! {

/// What points are ordered by.
pub open spec fn cells_of(points: Seq<CompactPointRecord>) -> Seq<u64> {
    Seq::new(points.len(), |i: int| points[i].cell)
}

/// The order of points by cell, equal ones as they came.
pub open spec fn cell_order(points: Seq<CompactPointRecord>) -> Seq<usize> {
    choose|order: Seq<usize>| stable_order(cells_of(points), order)
}

/// Points in the order of their cells.
pub open spec fn by_cell(points: Seq<CompactPointRecord>) -> Seq<CompactPointRecord> {
    Seq::new(cell_order(points).len(), |i: int| points[cell_order(points)[i] as int])
}

/// No point has a smaller cell than one before it.
pub open spec fn in_cell_order(points: Seq<CompactPointRecord>) -> bool {
    forall|i: int, j: int|
        0 <= i < j < points.len() ==> (#[trigger] points[i]).cell <= (#[trigger] points[j]).cell
}

/// The points of all fragments, one fragment after the other.
pub open spec fn gathered(fragments: Seq<Vec<CompactPointRecord>>, k: int) -> Seq<
    CompactPointRecord,
>
    decreases k,
{
    if k <= 0 {
        Seq::empty()
    } else {
        gathered(fragments, k - 1) + fragments[k - 1]@
    }
}

/// The points of all fragments stand one fragment after the other: those of fragment `f` behind
/// those of the fragments before it.
pub proof fn lemma_gathered(fragments: Seq<Vec<CompactPointRecord>>, k: int, f: int)
    requires
        0 <= f < k <= fragments.len(),
    ensures
        gathered(fragments, 0).len() == 0,
        gathered(fragments, f + 1).len() == gathered(fragments, f).len() + fragments[f]@.len(),
        gathered(fragments, f + 1).len() <= gathered(fragments, k).len(),
        gathered(fragments, k).subrange(
            gathered(fragments, f).len() as int,
            gathered(fragments, f + 1).len() as int,
        ) == fragments[f]@,
    decreases k,
{
    let whole = gathered(fragments, k);
    let start = gathered(fragments, f).len() as int;
    let end = gathered(fragments, f + 1).len() as int;
    if f + 1 < k {
        lemma_gathered(fragments, k - 1, f);
        assert(whole.subrange(start, end) =~= gathered(fragments, k - 1).subrange(start, end));
    } else {
        assert(whole.subrange(start, end) =~= fragments[f]@);
    }
}

/// `points` are `all`, each once, in the order of their cells, and those of one cell as they came;
/// `order` says where each came from.
pub open spec fn sorted_from(
    all: Seq<CompactPointRecord>,
    points: Seq<CompactPointRecord>,
    order: Seq<usize>,
) -> bool {
    &&& order.len() == all.len() == points.len()
    &&& order.no_duplicates()
    &&& forall|i: int|
        0 <= i < order.len() ==> #[trigger] order[i] < all.len() && points[i]
            == all[order[i] as int]
    &&& forall|i: int, j: int|
        0 <= i < j < points.len() ==> {
            ||| (#[trigger] points[i]).cell < (#[trigger] points[j]).cell
            ||| points[i].cell == points[j].cell && order[i] < order[j]
        }
}

/// Sorts the points that the shards put into one bucket: the same points, each as often as
/// before, in the order of their cells.
pub fn prepare_node_index_bucket(fragments: &Vec<Vec<CompactPointRecord>>) -> (points: Vec<
    CompactPointRecord,
>)
    ensures
        points@ == by_cell(gathered(fragments@, fragments@.len() as int)),
        in_cell_order(points@),
        points@.len() == gathered(fragments@, fragments@.len() as int).len(),
        forall|i: int|
            0 <= i < points@.len() ==> gathered(fragments@, fragments@.len() as int).contains(
                #[trigger] points@[i],
            ),
        exists|order: Seq<usize>| #[trigger]
            sorted_from(gathered(fragments@, fragments@.len() as int), points@, order),
{
    let mut all: Vec<CompactPointRecord> = Vec::new();
    let mut keys: Vec<u64> = Vec::new();
    let mut k: usize = 0;
    while k < fragments.len()
        invariant
            k <= fragments@.len(),
            all@ == gathered(fragments@, k as int),
            keys@ == cells_of(all@),
        decreases fragments@.len() - k,
    {
        let fragment: &Vec<CompactPointRecord> = &fragments[k];
        let ghost before = all@;
        let mut i: usize = 0;
        while i < fragment.len()
            invariant
                i <= fragment@.len(),
                all@ == before + fragment@.take(i as int),
                keys@ == cells_of(all@),
            decreases fragment@.len() - i,
        {
            all.push(fragment[i]);
            keys.push(fragment[i].cell);
            assert(fragment@.take(i + 1) =~= fragment@.take(i as int).push(fragment@[i as int]));
            assert(keys@ =~= cells_of(all@));
            i = i + 1;
        }
        assert(fragment@.take(fragment@.len() as int) =~= fragment@);
        k = k + 1;
    }
    let order: Vec<usize> = sort_order(&keys);
    proof {
        lemma_stable_order_unique(keys@, order@, cell_order(all@));
    }
    let mut points: Vec<CompactPointRecord> = Vec::new();
    let mut i: usize = 0;
    while i < order.len()
        invariant
            i <= order@.len(),
            order@ == cell_order(all@),
            stable_order(keys@, order@),
            keys@ == cells_of(all@),
            points@ == by_cell(all@).take(i as int),
        decreases order@.len() - i,
    {
        assert(order@[i as int] < all@.len());
        points.push(all[order[i]]);
        assert(by_cell(all@).take(i + 1) =~= by_cell(all@).take(i as int).push(
            by_cell(all@)[i as int],
        ));
        i = i + 1;
    }
    assert(by_cell(all@).take(order@.len() as int) =~= by_cell(all@));
    assert forall|i: int, j: int| 0 <= i < j < points@.len() implies (#[trigger] points@[i]).cell
        <= (#[trigger] points@[j]).cell by {
        assert(ordered_by(keys@, order@));
        assert(points@[i] == all@[order@[i] as int]);
        assert(points@[j] == all@[order@[j] as int]);
    }
    assert forall|i: int| 0 <= i < points@.len() implies all@.contains(#[trigger] points@[i]) by {
        assert(points@[i] == all@[order@[i] as int]);
    }
    assert(sorted_from(all@, points@, order@)) by {
        assert(ordered_by(keys@, order@));
        assert forall|i: int, j: int| 0 <= i < j < points@.len() implies ((
        #[trigger] points@[i]).cell < (#[trigger] points@[j]).cell || points@[i].cell
            == points@[j].cell && order@[i] < order@[j]) by {
            assert(key_before(keys@, order@[i] as int, order@[j] as int));
        }
        assert forall|i: int, j: int|
            0 <= i < order@.len() && 0 <= j < order@.len() && i != j implies order@[i]
            != order@[j] by {
            if i < j {
                assert(key_before(keys@, order@[i] as int, order@[j] as int));
            } else {
                assert(key_before(keys@, order@[j] as int, order@[i] as int));
            }
        }
    }
    points
}

/// The cells of the first `k` points, in bytes.
pub open spec fn cell_bytes(order: ByteOrder, points: Seq<CompactPointRecord>, k: int) -> Seq<u8>
    decreases k,
{
    if k <= 0 {
        Seq::empty()
    } else {
        cell_bytes(order, points, k - 1) + u64_bytes(order, points[k - 1].cell)
    }
}

/// The nodes of the first `k` points, in bytes: eight for each.
pub open spec fn node_bytes(order: ByteOrder, points: Seq<CompactPointRecord>, k: int) -> Seq<u8>
    decreases k,
{
    if k <= 0 {
        Seq::empty()
    } else {
        node_bytes(order, points, k - 1) + u64_bytes(order, points[k - 1].compact_node as u64)
    }
}

/// A part of the index, in bytes.
#[derive(Debug)]
pub struct NodeIndexBucket {
    pub count: u64,
    pub cells: Vec<u8>,
    pub data: Vec<u8>,
}

/// Writes the points of a bucket.
pub fn write_bucket(order: ByteOrder, points: &[CompactPointRecord]) -> (bucket: NodeIndexBucket)
    ensures
        bucket.count == points@.len(),
        bucket.cells@ == cell_bytes(order, points@, points@.len() as int),
        bucket.data@ == node_bytes(order, points@, points@.len() as int),
{
    let mut cells: Vec<u8> = Vec::new();
    let mut data: Vec<u8> = Vec::new();
    let mut k: usize = 0;
    while k < points.len()
        invariant
            k <= points@.len(),
            cells@ == cell_bytes(order, points@, k as int),
            data@ == node_bytes(order, points@, k as int),
        decreases points@.len() - k,
    {
        write_u64(order, points[k].cell, &mut cells);
        write_u64(order, points[k].compact_node as u64, &mut data);
        k = k + 1;
    }
    NodeIndexBucket { count: points.len() as u64, cells, data }
}

/// How many points the first `k` buckets have.
pub open spec fn points_in(buckets: Seq<NodeIndexBucket>, k: int) -> int
    decreases k,
{
    if k <= 0 {
        0
    } else {
        points_in(buckets, k - 1) + buckets[k - 1].count
    }
}

/// The cells of the first `k` buckets.
pub open spec fn cells_in(buckets: Seq<NodeIndexBucket>, k: int) -> Seq<u8>
    decreases k,
{
    if k <= 0 {
        Seq::empty()
    } else {
        cells_in(buckets, k - 1) + buckets[k - 1].cells@
    }
}

/// The nodes of the first `k` buckets.
pub open spec fn data_in(buckets: Seq<NodeIndexBucket>, k: int) -> Seq<u8>
    decreases k,
{
    if k <= 0 {
        Seq::empty()
    } else {
        data_in(buckets, k - 1) + buckets[k - 1].data@
    }
}

fn append_bytes(out: &mut Vec<u8>, bytes: &Vec<u8>)
    ensures
        final(out)@ == old(out)@ + bytes@,
{
    let ghost before = out@;
    let mut i: usize = 0;
    while i < bytes.len()
        invariant
            i <= bytes@.len(),
            out@ == before + bytes@.take(i as int),
        decreases bytes@.len() - i,
    {
        out.push(bytes[i]);
        assert(bytes@.take(i + 1) =~= bytes@.take(i as int).push(bytes@[i as int]));
        i = i + 1;
    }
    assert(bytes@.take(bytes@.len() as int) =~= bytes@);
}

proof fn lemma_points_in(buckets: Seq<NodeIndexBucket>, j: int, k: int)
    requires
        0 <= j <= k <= buckets.len(),
    ensures
        0 <= points_in(buckets, j) <= points_in(buckets, k),
    decreases k,
{
    if k > 0 {
        lemma_points_in(buckets, 0, k - 1);
        if j < k {
            lemma_points_in(buckets, j, k - 1);
        }
    }
}

/// The index: how many points there are, their cells, and their nodes, bucket by bucket.
pub fn build_transfer_node_index(order: ByteOrder, buckets: &[NodeIndexBucket]) -> (index: Vec<u8>)
    requires
        points_in(buckets@, buckets@.len() as int) <= u64::MAX,
    ensures
        index@ == u64_bytes(order, points_in(buckets@, buckets@.len() as int) as u64) + cells_in(
            buckets@,
            buckets@.len() as int,
        ) + data_in(buckets@, buckets@.len() as int),
{
    let ghost n = buckets@.len() as int;
    let mut total: u64 = 0;
    let mut k: usize = 0;
    while k < buckets.len()
        invariant
            k <= buckets@.len() == n,
            points_in(buckets@, n) <= u64::MAX,
            total == points_in(buckets@, k as int),
        decreases buckets@.len() - k,
    {
        proof {
            lemma_points_in(buckets@, k + 1, n);
        }
        total = total + buckets[k].count;
        k = k + 1;
    }
    let mut index: Vec<u8> = Vec::new();
    write_u64(order, total, &mut index);
    let ghost header = index@;
    assert(header =~= u64_bytes(order, total));
    let mut c: usize = 0;
    assert(header + Seq::<u8>::empty() =~= header);
    while c < buckets.len()
        invariant
            c <= buckets@.len() == n,
            index@ == header + cells_in(buckets@, c as int),
        decreases buckets@.len() - c,
    {
        append_bytes(&mut index, &buckets[c].cells);
        assert(index@ =~= header + cells_in(buckets@, c + 1));
        c = c + 1;
    }
    let ghost both = index@;
    let mut d: usize = 0;
    assert(both + Seq::<u8>::empty() =~= both);
    while d < buckets.len()
        invariant
            d <= buckets@.len() == n,
            index@ == both + data_in(buckets@, d as int),
        decreases buckets@.len() - d,
    {
        append_bytes(&mut index, &buckets[d].data);
        assert(index@ =~= both + data_in(buckets@, d + 1));
        d = d + 1;
    }
    index
}

/// The points of the first `k` buckets.
pub open spec fn indexed(buckets: Seq<Seq<CompactPointRecord>>, k: int) -> Seq<CompactPointRecord>
    decreases k,
{
    if k <= 0 {
        Seq::empty()
    } else {
        indexed(buckets, k - 1) + buckets[k - 1]
    }
}

/// A bucket's bytes are those of `points`.
pub open spec fn holds(
    order: ByteOrder,
    bucket: NodeIndexBucket,
    points: Seq<CompactPointRecord>,
) -> bool {
    &&& bucket.count == points.len()
    &&& bucket.cells@ == cell_bytes(order, points, points.len() as int)
    &&& bucket.data@ == node_bytes(order, points, points.len() as int)
}

/// The bytes of points that follow others follow theirs.
proof fn lemma_bytes_follow(
    order: ByteOrder,
    a: Seq<CompactPointRecord>,
    b: Seq<CompactPointRecord>,
    k: int,
)
    requires
        0 <= k <= a.len() + b.len(),
    ensures
        k <= a.len() ==> cell_bytes(order, a + b, k) == cell_bytes(order, a, k),
        k <= a.len() ==> node_bytes(order, a + b, k) == node_bytes(order, a, k),
        k >= a.len() ==> cell_bytes(order, a + b, k) == cell_bytes(order, a, a.len() as int)
            + cell_bytes(order, b, k - a.len()),
        k >= a.len() ==> node_bytes(order, a + b, k) == node_bytes(order, a, a.len() as int)
            + node_bytes(order, b, k - a.len()),
    decreases k,
{
    if k > 0 {
        lemma_bytes_follow(order, a, b, k - 1);
        if k <= a.len() {
            assert((a + b)[k - 1] == a[k - 1]);
        } else {
            assert((a + b)[k - 1] == b[k - 1 - a.len()]);
        }
    }
    assert(cell_bytes(order, a, a.len() as int) + Seq::<u8>::empty() =~= cell_bytes(
        order,
        a,
        a.len() as int,
    ));
    assert(node_bytes(order, a, a.len() as int) + Seq::<u8>::empty() =~= node_bytes(
        order,
        a,
        a.len() as int,
    ));
    if k > a.len() {
        assert(cell_bytes(order, a + b, k) =~= cell_bytes(order, a, a.len() as int) + cell_bytes(
            order,
            b,
            k - a.len(),
        ));
        assert(node_bytes(order, a + b, k) =~= node_bytes(order, a, a.len() as int) + node_bytes(
            order,
            b,
            k - a.len(),
        ));
    }
}

/// Where the bytes of every bucket are those of its points, an index of the first `k` buckets
/// holds how many points they have, and the cells and the nodes of all these points, bucket by
/// bucket.
pub proof fn lemma_index_holds_points(
    order: ByteOrder,
    buckets: Seq<NodeIndexBucket>,
    points: Seq<Seq<CompactPointRecord>>,
    k: int,
)
    requires
        0 <= k <= buckets.len() == points.len(),
        forall|b: int|
            0 <= b < buckets.len() ==> holds(order, #[trigger] buckets[b], points[b]),
    ensures
        points_in(buckets, k) == indexed(points, k).len(),
        cells_in(buckets, k) == cell_bytes(
            order,
            indexed(points, k),
            indexed(points, k).len() as int,
        ),
        data_in(buckets, k) == node_bytes(
            order,
            indexed(points, k),
            indexed(points, k).len() as int,
        ),
    decreases k,
{
    if k > 0 {
        lemma_index_holds_points(order, buckets, points, k - 1);
        let before = indexed(points, k - 1);
        assert(holds(order, buckets[k - 1], points[k - 1]));
        lemma_bytes_follow(
            order,
            before,
            points[k - 1],
            (before.len() + points[k - 1].len()) as int,
        );
    }
}

proof fn lemma_points_read(
    order: ByteOrder,
    points: Seq<CompactPointRecord>,
    k: int,
    i: int,
)
    requires
        0 <= i < k <= points.len(),
    ensures
        cell_bytes(order, points, k).len() == 8 * k,
        node_bytes(order, points, k).len() == 8 * k,
        stands_at(cell_bytes(order, points, k), 8 * i, u64_bytes(order, points[i].cell)),
        stands_at(
            node_bytes(order, points, k),
            8 * i,
            u64_bytes(order, points[i].compact_node as u64),
        ),
    decreases k,
{
    lemma_sizes(order);
    let cells = cell_bytes(order, points, k);
    let nodes = node_bytes(order, points, k);
    lemma_bytes_sized(order, points, k - 1);
    let cell = u64_bytes(order, points[i].cell);
    let node = u64_bytes(order, points[i].compact_node as u64);
    if i < k - 1 {
        lemma_points_read(order, points, k - 1, i);
        assert forall|b: int| 0 <= b < 8 implies cells[8 * i + b] == #[trigger] cell[b] by {
            assert(cell_bytes(order, points, k - 1)[8 * i + b] == cell[b]);
        }
        assert forall|b: int| 0 <= b < 8 implies nodes[8 * i + b] == #[trigger] node[b] by {
            assert(node_bytes(order, points, k - 1)[8 * i + b] == node[b]);
        }
    }
}

proof fn lemma_bytes_sized(order: ByteOrder, points: Seq<CompactPointRecord>, k: int)
    requires
        0 <= k <= points.len(),
    ensures
        cell_bytes(order, points, k).len() == 8 * k,
        node_bytes(order, points, k).len() == 8 * k,
    decreases k,
{
    lemma_sizes(order);
    if k > 0 {
        lemma_bytes_sized(order, points, k - 1);
    }
}

/// What an index of points is read as: how many there are, then their cells, then their nodes, each
/// in eight bytes.
pub proof fn lemma_index_read(
    order: ByteOrder,
    points: Seq<CompactPointRecord>,
    index: Seq<u8>,
    i: int,
)
    requires
        0 <= i < points.len() <= u64::MAX,
        index == u64_bytes(order, points.len() as u64) + cell_bytes(
            order,
            points,
            points.len() as int,
        ) + node_bytes(order, points, points.len() as int),
    ensures
        index.len() == 8 + 16 * points.len(),
        u64_at(order, index, 0) == points.len(),
        u64_at(order, index, 8 + 8 * i) == points[i].cell,
        u64_at(order, index, 8 + 8 * points.len() + 8 * i) == points[i].compact_node,
{
    let n = points.len() as int;
    lemma_sizes(order);
    lemma_bytes_sized(order, points, n);
    lemma_points_read(order, points, n, i);
    let count = u64_bytes(order, points.len() as u64);
    let cells = cell_bytes(order, points, n);
    let nodes = node_bytes(order, points, n);
    let cell = u64_bytes(order, points[i].cell);
    let node = u64_bytes(order, points[i].compact_node as u64);
    assert forall|b: int| 0 <= b < 8 implies index[0 + b] == #[trigger] count[b] by {}
    assert forall|b: int| 0 <= b < 8 implies index[8 + 8 * i + b] == #[trigger] cell[b] by {
        assert(cells[8 * i + b] == cell[b]);
    }
    assert forall|b: int| 0 <= b < 8 implies index[8 + 8 * n + 8 * i + b] == #[trigger] node[b] by {
        assert(nodes[8 * i + b] == node[b]);
    }
    lemma_u64_reads_back(order, index, 0, points.len() as u64);
    lemma_u64_reads_back(order, index, 8 + 8 * i, points[i].cell);
    lemma_u64_reads_back(order, index, 8 + 8 * n + 8 * i, points[i].compact_node as u64);
}

/// Where every bucket is in order and holds only points that belong in it, all points are in
/// order, bucket by bucket.
pub proof fn lemma_index_in_order(buckets: Seq<Seq<CompactPointRecord>>, k: int)
    requires
        0 <= k <= buckets.len(),
        forall|b: int| 0 <= b < buckets.len() ==> in_cell_order(#[trigger] buckets[b]),
        forall|b: int, i: int|
            0 <= b < buckets.len() && 0 <= i < buckets[b].len() ==> bucket_of(
                (#[trigger] buckets[b][i]).cell,
            ) == b,
    ensures
        in_cell_order(indexed(buckets, k)),
        forall|i: int|
            0 <= i < indexed(buckets, k).len() ==> bucket_of(
                (#[trigger] indexed(buckets, k)[i]).cell,
            ) < k,
    decreases k,
{
    if k > 0 {
        lemma_index_in_order(buckets, k - 1);
        let before = indexed(buckets, k - 1);
        let here = buckets[k - 1];
        let all = indexed(buckets, k);
        assert(in_cell_order(here));
        assert forall|i: int, j: int| 0 <= i < j < all.len() implies (#[trigger] all[i]).cell <= (
        #[trigger] all[j]).cell by {
            if j < before.len() {
                assert(before[i].cell <= before[j].cell);
            } else if i < before.len() {
                assert(bucket_of(before[i].cell) < k - 1);
                assert(bucket_of(buckets[k - 1][j - before.len()].cell) == k - 1);
            } else {
                assert(here[i - before.len()].cell <= here[j - before.len()].cell);
            }
        }
        assert forall|i: int| 0 <= i < all.len() implies bucket_of((#[trigger] all[i]).cell)
            < k by {
            if i < before.len() {
                assert(bucket_of(before[i].cell) < k - 1);
            } else {
                assert(bucket_of(buckets[k - 1][i - before.len()].cell) == k - 1);
            }
        }
    }
}

/// A file that should hold one number does not have eight bytes.
#[derive(Clone, Copy, PartialEq, Eq, Structural, Debug)]
pub struct WrongLength {
    pub bytes: usize,
}

/// Reads the number that a file holds.
pub fn read_u64_file(order: ByteOrder, bytes: &[u8]) -> (r: Result<u64, WrongLength>)
    ensures
        r == (if bytes@.len() == 8 {
            Ok::<u64, WrongLength>(u64_at(order, bytes@, 0))
        } else {
            Err::<u64, WrongLength>(WrongLength { bytes: bytes@.len() as usize })
        }),
{
    if bytes.len() != 8 {
        return Err(WrongLength { bytes: bytes.len() });
    }
    match crate::transfers::records::read_u64(order, bytes, 0) {
        Ok(Some(v)) => Ok(v),
        _ => {
            assert(false);
            Err(WrongLength { bytes: bytes.len() })
        },
    }
}

} // verus!
