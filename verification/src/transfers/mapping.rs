//! The numbering of the raw nodes that occur in the graph, without gaps.

use crate::counting::{lemma_none, lemma_one_more, positions};
use crate::transfers::records::{PointRecord, RawGraphEdgeRecord};
use vstd::prelude::*;

verus! {

/// Bit `i` of `word`.
pub open spec fn bit(word: u64, i: u64) -> bool {
    (word >> i) & 1 == 1
}

/// How many of the lowest `k` bits of `word` are ones.
pub open spec fn ones(word: u64, k: nat) -> nat
    decreases k,
{
    if k == 0 {
        0
    } else {
        ones(word, (k - 1) as nat) + if bit(word, (k - 1) as u64) {
            1nat
        } else {
            0nat
        }
    }
}

/// The number of ones in the binary representation, as `u64::count_ones` gives it.
pub assume_specification[ u64::count_ones ](word: u64) -> (n: u32)
    ensures
        n == ones(word, 64),
;

/// Whether raw node `j` is marked.
pub open spec fn marked(bits: Seq<u64>, j: int) -> bool {
    0 <= j && j / 64 < bits.len() && bit(bits[j / 64], (j % 64) as u64)
}

/// How many raw nodes before `j` are marked.
pub open spec fn rank(bits: Seq<u64>, j: int) -> nat
    decreases j,
{
    if j <= 0 {
        0
    } else {
        rank(bits, j - 1) + if marked(bits, j - 1) {
            1nat
        } else {
            0nat
        }
    }
}

/// The rank of a raw node is the number of marked nodes before it.
pub proof fn lemma_rank_counts(bits: Seq<u64>, j: int)
    requires
        0 <= j,
    ensures
        rank(bits, j) == positions(j, |i: int| marked(bits, i)).len(),
    decreases j,
{
    let wanted = |i: int| marked(bits, i);
    if j <= 0 {
        lemma_none(wanted);
    } else {
        lemma_rank_counts(bits, j - 1);
        lemma_one_more(j - 1, wanted);
    }
}

/// Setting a bit changes that bit alone.
proof fn lemma_set_bit(word: u64, b: u64, i: u64)
    requires
        b < 64,
        i < 64,
    ensures
        bit(word | (1u64 << b), i) == (bit(word, i) || i == b),
{
    assert((((word | (1u64 << b)) >> i) & 1 == 1) == (((word >> i) & 1 == 1) || i == b))
        by (bit_vector)
        requires
            b < 64,
            i < 64,
    ;
}

proof fn lemma_or_bits(a: u64, b: u64, i: u64)
    requires
        i < 64,
    ensures
        bit(a | b, i) == (bit(a, i) || bit(b, i)),
{
    assert((((a | b) >> i) & 1 == 1) == (((a >> i) & 1 == 1) || ((b >> i) & 1 == 1)))
        by (bit_vector)
        requires
            i < 64,
    ;
}

/// A word that is 0 has no ones.
proof fn lemma_zero_bits(i: u64)
    requires
        i < 64,
    ensures
        !bit(0u64, i),
{
    assert((0u64 >> i) & 1 == 0) by (bit_vector)
        requires
            i < 64,
    ;
}

/// Testing a bit by its mask.
proof fn lemma_test_bit(word: u64, b: u64)
    requires
        b < 64,
    ensures
        (word & (1u64 << b) != 0) == bit(word, b),
{
    assert((word & (1u64 << b) != 0) == ((word >> b) & 1 == 1)) by (bit_vector)
        requires
            b < 64,
    ;
}

/// The mask of the bits below `b` keeps those bits alone.
proof fn lemma_mask_bit(word: u64, b: u64, mask: u64, i: u64)
    requires
        b < 64,
        i < 64,
        mask == (1u64 << b) - 1,
    ensures
        bit(word & mask, i) == (i < b && bit(word, i)),
{
    assert((((word & mask) >> i) & 1 == 1) == (i < b && ((word >> i) & 1 == 1))) by (bit_vector)
        requires
            b < 64,
            i < 64,
            mask == (1u64 << b) - 1,
    ;
}

/// The masked word has as many ones as the word has below the mask's end.
proof fn lemma_masked_ones(word: u64, b: u64, mask: u64, k: nat)
    requires
        b < 64,
        k <= 64,
        mask == (1u64 << b) - 1,
    ensures
        ones(word & mask, k) == ones(
            word,
            if k < b {
                k
            } else {
                b as nat
            },
        ),
    decreases k,
{
    if k > 0 {
        lemma_masked_ones(word, b, mask, (k - 1) as nat);
        lemma_mask_bit(word, b, mask, (k - 1) as u64);
    }
}

/// Ranks within a word: those up to the word, and the ones of the word below.
proof fn lemma_rank_in_word(bits: Seq<u64>, w: int, b: int)
    requires
        0 <= w < bits.len(),
        0 <= b <= 64,
    ensures
        rank(bits, 64 * w + b) == rank(bits, 64 * w) + ones(bits[w], b as nat),
    decreases b,
{
    if b > 0 {
        lemma_rank_in_word(bits, w, b - 1);
        assert((64 * w + b - 1) / 64 == w && (64 * w + b - 1) % 64 == b - 1);
    }
}

/// Ranks do not fall.
pub proof fn lemma_rank_grows(bits: Seq<u64>, j: int, k: int)
    requires
        j <= k,
    ensures
        rank(bits, j) <= rank(bits, k),
        marked(bits, j) && j < k ==> rank(bits, j) < rank(bits, k),
    decreases k,
{
    if 0 < k && j < k {
        lemma_rank_grows(bits, j, k - 1);
    }
}

/// Every number below the rank of `k` is the rank of a marked node before `k`.
pub proof fn lemma_rank_onto(bits: Seq<u64>, k: int, c: nat) -> (j: int)
    requires
        c < rank(bits, k),
    ensures
        0 <= j < k,
        marked(bits, j),
        rank(bits, j) == c,
    decreases k,
{
    if c < rank(bits, k - 1) {
        lemma_rank_onto(bits, k - 1, c)
    } else {
        k - 1
    }
}

/// How many words hold one bit per raw node.
pub fn bit_words(total_raw_nodes: u32) -> (words: usize)
    ensures
        words >= 1,
        words * 64 >= total_raw_nodes,
        words > 1 ==> (words - 1) * 64 < total_raw_nodes,
{
    let words: usize = total_raw_nodes as usize / 64;
    if total_raw_nodes % 64 != 0 || words == 0 {
        words + 1
    } else {
        words
    }
}

/// Marks a raw node.
pub fn mark_raw_node(bits: &mut Vec<u64>, raw_node: u32)
    requires
        raw_node < 64 * old(bits)@.len(),
    ensures
        final(bits)@.len() == old(bits)@.len(),
        forall|j: int| #[trigger]
            marked(final(bits)@, j) <==> marked(old(bits)@, j) || j == raw_node,
{
    let ghost before = bits@;
    let word_index: usize = raw_node as usize / 64;
    let bit_index: u64 = raw_node as u64 % 64;
    let word: u64 = bits[word_index];
    bits[word_index] = word | (1u64 << bit_index);
    assert forall|j: int| #[trigger] marked(bits@, j) <==> marked(before, j) || j == raw_node by {
        if 0 <= j && j / 64 == word_index {
            lemma_set_bit(word, bit_index, (j % 64) as u64);
        }
    }
}

/// Whether a shard names raw node `j`.
pub open spec fn names(
    edges: Seq<RawGraphEdgeRecord>,
    points: Seq<PointRecord>,
    j: int,
) -> bool {
    ||| exists|i: int|
        0 <= i < edges.len() && ((#[trigger] edges[i]).from_raw == j || edges[i].to_raw == j)
    ||| exists|i: int| 0 <= i < points.len() && (#[trigger] points[i]).raw_node == j
}

/// Whether every raw node that a shard names is below `limit`.
pub open spec fn names_below(
    edges: Seq<RawGraphEdgeRecord>,
    points: Seq<PointRecord>,
    limit: int,
) -> bool {
    &&& forall|i: int|
        0 <= i < edges.len() ==> (#[trigger] edges[i]).from_raw < limit && edges[i].to_raw < limit
    &&& forall|i: int| 0 <= i < points.len() ==> (#[trigger] points[i]).raw_node < limit
}

/// Whether every raw node that a shard names has a bit in `words` words.
pub fn shard_fits(edges: &[RawGraphEdgeRecord], points: &[PointRecord], words: usize) -> (fits:
    bool)
    requires
        64 * words <= usize::MAX,
    ensures
        fits == names_below(edges@, points@, 64 * words),
{
    let limit: usize = 64 * words;
    let mut i: usize = 0;
    while i < edges.len()
        invariant
            i <= edges@.len(),
            limit == 64 * words,
            forall|k: int|
                0 <= k < i ==> (#[trigger] edges@[k]).from_raw < limit && edges@[k].to_raw < limit,
        decreases edges@.len() - i,
    {
        let edge: RawGraphEdgeRecord = edges[i];
        assert(edges@[i as int] == edge);
        if edge.from_raw as usize >= limit || edge.to_raw as usize >= limit {
            return false;
        }
        i = i + 1;
    }
    let mut p: usize = 0;
    while p < points.len()
        invariant
            p <= points@.len(),
            limit == 64 * words,
            forall|k: int| 0 <= k < p ==> (#[trigger] points@[k]).raw_node < limit,
        decreases points@.len() - p,
    {
        let point: PointRecord = points[p];
        assert(points@[p as int] == point);
        if point.raw_node as usize >= limit {
            return false;
        }
        p = p + 1;
    }
    true
}

/// Marks the raw nodes that a shard names.
pub fn mark_shard(bits: &mut Vec<u64>, edges: &[RawGraphEdgeRecord], points: &[PointRecord])
    requires
        names_below(edges@, points@, 64 * old(bits)@.len() as int),
    ensures
        final(bits)@.len() == old(bits)@.len(),
        forall|j: int| #[trigger]
            marked(final(bits)@, j) <==> marked(old(bits)@, j) || names(edges@, points@, j),
{
    let ghost before = bits@;
    let mut i: usize = 0;
    while i < edges.len()
        invariant
            i <= edges@.len(),
            bits@.len() == before.len(),
            names_below(edges@, points@, 64 * before.len() as int),
            forall|j: int| #[trigger]
                marked(bits@, j) <==> marked(before, j) || exists|k: int|
                    0 <= k < i && ((#[trigger] edges@[k]).from_raw == j || edges@[k].to_raw == j),
        decreases edges@.len() - i,
    {
        let ghost was = bits@;
        let edge: RawGraphEdgeRecord = edges[i];
        assert(edges@[i as int] == edge);
        mark_raw_node(bits, edge.from_raw);
        mark_raw_node(bits, edge.to_raw);
        assert forall|j: int| #[trigger] marked(bits@, j) <==> marked(before, j) || exists|k: int|
            0 <= k < i + 1 && ((#[trigger] edges@[k]).from_raw == j || edges@[k].to_raw == j) by {
            assert(marked(was, j) <==> marked(before, j) || exists|k: int|
                0 <= k < i && ((#[trigger] edges@[k]).from_raw == j || edges@[k].to_raw == j));
            if j == edge.from_raw || j == edge.to_raw {
                assert(edges@[i as int].from_raw == j || edges@[i as int].to_raw == j);
            }
        }
        i = i + 1;
    }
    let ghost edged = bits@;
    let mut p: usize = 0;
    while p < points.len()
        invariant
            p <= points@.len(),
            bits@.len() == before.len(),
            names_below(edges@, points@, 64 * before.len() as int),
            forall|j: int| #[trigger]
                marked(bits@, j) <==> marked(edged, j) || exists|k: int|
                    0 <= k < p && (#[trigger] points@[k]).raw_node == j,
        decreases points@.len() - p,
    {
        let ghost was = bits@;
        assert(points@[p as int].raw_node < 64 * before.len());
        mark_raw_node(bits, points[p].raw_node);
        assert forall|j: int| #[trigger] marked(bits@, j) <==> marked(edged, j) || exists|k: int|
            0 <= k < p + 1 && (#[trigger] points@[k]).raw_node == j by {
            assert(marked(was, j) <==> marked(edged, j) || exists|k: int|
                0 <= k < p && (#[trigger] points@[k]).raw_node == j);
            if j == points@[p as int].raw_node {
                assert(points@[p as int].raw_node == j);
            }
        }
        p = p + 1;
    }
    assert forall|j: int| #[trigger]
        marked(bits@, j) <==> marked(before, j) || names(edges@, points@, j) by {
        assert(marked(edged, j) <==> marked(before, j) || exists|k: int|
            0 <= k < edges@.len() && ((#[trigger] edges@[k]).from_raw == j || edges@[k].to_raw
                == j));
    }
}

/// Marks in `bits` what `other` marks.
pub fn merge_bits(bits: &mut Vec<u64>, other: &Vec<u64>)
    requires
        old(bits)@.len() == other@.len(),
    ensures
        final(bits)@.len() == old(bits)@.len(),
        forall|w: int|
            0 <= w < old(bits)@.len() ==> #[trigger] final(bits)@[w] == old(bits)@[w] | other@[w],
        forall|j: int| #[trigger]
            marked(final(bits)@, j) <==> marked(old(bits)@, j) || marked(other@, j),
{
    let ghost before = bits@;
    let mut w: usize = 0;
    while w < bits.len()
        invariant
            w <= bits@.len() == before.len() == other@.len(),
            forall|k: int| 0 <= k < w ==> #[trigger] bits@[k] == before[k] | other@[k],
            forall|k: int| w <= k < bits@.len() ==> #[trigger] bits@[k] == before[k],
        decreases bits@.len() - w,
    {
        let word: u64 = bits[w] | other[w];
        bits[w] = word;
        w = w + 1;
    }
    assert forall|j: int| #[trigger]
        marked(bits@, j) <==> marked(before, j) || marked(other@, j) by {
        if 0 <= j && j / 64 < bits@.len() {
            lemma_or_bits(before[j / 64], other@[j / 64], (j % 64) as u64);
        }
    }
}

/// No bits set.
pub fn no_bits(words: usize) -> (bits: Vec<u64>)
    ensures
        bits@.len() == words,
        forall|j: int| !#[trigger] marked(bits@, j),
{
    let bits: Vec<u64> = vec![0u64; words];
    assert forall|j: int| !#[trigger] marked(bits@, j) by {
        if 0 <= j && j / 64 < bits@.len() {
            lemma_zero_bits((j % 64) as u64);
        }
    }
    bits
}

/// There are more nodes than 32 bits can number.
#[derive(Clone, Copy, PartialEq, Eq, Structural, Debug)]
pub struct TooManyNodes {}

/// The raw nodes that occur in the graph, and how many of them precede each word.
#[derive(Debug)]
pub struct RawNodeMapping {
    pub bits: Vec<u64>,
    pub prefix_counts: Vec<u32>,
    pub compact_node_count: u32,
}

impl RawNodeMapping {
    pub open spec fn wf(&self) -> bool {
        &&& self.prefix_counts@.len() == self.bits@.len()
        &&& forall|w: int|
            0 <= w < self.bits@.len() ==> #[trigger] self.prefix_counts@[w] == rank(
                self.bits@,
                64 * w,
            )
        &&& self.compact_node_count == rank(self.bits@, 64 * self.bits@.len() as int)
    }

    /// The number of a raw node among those that occur, in their order.
    pub open spec fn compact(&self, raw_node: u32) -> Option<u32> {
        if marked(self.bits@, raw_node as int) {
            Some(rank(self.bits@, raw_node as int) as u32)
        } else {
            None
        }
    }

    /// Numbers the marked raw nodes.
    pub fn new(bits: Vec<u64>) -> (r: Result<RawNodeMapping, TooManyNodes>)
        ensures
            r is Ok <==> rank(bits@, 64 * bits@.len() as int) <= u32::MAX,
            r matches Ok(mapping) ==> mapping.wf() && mapping.bits == bits,
    {
        let mut prefix_counts: Vec<u32> = Vec::new();
        let mut total: u32 = 0;
        let mut w: usize = 0;
        while w < bits.len()
            invariant
                w <= bits@.len(),
                prefix_counts@.len() == w,
                total == rank(bits@, 64 * w as int),
                forall|k: int|
                    0 <= k < w ==> #[trigger] prefix_counts@[k] == rank(bits@, 64 * k),
            decreases bits@.len() - w,
        {
            prefix_counts.push(total);
            let count: u32 = bits[w].count_ones();
            proof {
                lemma_rank_in_word(bits@, w as int, 64);
            }
            if count > u32::MAX - total {
                proof {
                    lemma_rank_grows(bits@, 64 * (w + 1), 64 * bits@.len() as int);
                }
                return Err(TooManyNodes {  });
            }
            total = total + count;
            w = w + 1;
        }
        Ok(RawNodeMapping { bits, prefix_counts, compact_node_count: total })
    }

    /// The number of a raw node among those that occur; none where it does not.
    pub fn compact_node_id(&self, raw_node: u32) -> (id: Option<u32>)
        requires
            self.wf(),
        ensures
            id == self.compact(raw_node),
            id matches Some(id) ==> id < self.compact_node_count && id == rank(
                self.bits@,
                raw_node as int,
            ),
    {
        let word_index: usize = raw_node as usize / 64;
        let bit_index: u64 = raw_node as u64 % 64;
        if word_index >= self.bits.len() {
            return None;
        }
        let word: u64 = self.bits[word_index];
        proof {
            lemma_test_bit(word, bit_index);
        }
        if word & (1u64 << bit_index) == 0 {
            return None;
        }
        let prefix: u32 = self.prefix_counts[word_index];
        assert(1u64 << bit_index >= 1) by (bit_vector)
            requires
                bit_index < 64,
        ;
        let mask: u64 = (1u64 << bit_index) - 1;
        let below: u32 = (word & mask).count_ones();
        proof {
            lemma_masked_ones(word, bit_index, mask, 64);
            lemma_rank_in_word(self.bits@, word_index as int, bit_index as int);
            lemma_rank_grows(self.bits@, raw_node as int, 64 * self.bits@.len() as int);
        }
        Some(prefix + below)
    }
}

/// The words with the bits of the first `k` parts.
pub open spec fn merged(words: nat, parts: Seq<Vec<u64>>, k: int) -> Seq<u64>
    decreases k,
{
    if k <= 0 {
        Seq::new(words, |w: int| 0u64)
    } else {
        let before = merged(words, parts, k - 1);
        Seq::new(words, |w: int| before[w] | parts[k - 1]@[w])
    }
}

/// What is marked in the parts together is what is marked in one of them.
pub proof fn lemma_merged(words: nat, parts: Seq<Vec<u64>>, k: int, j: int)
    requires
        0 <= k <= parts.len(),
        forall|i: int| 0 <= i < parts.len() ==> (#[trigger] parts[i])@.len() == words,
    ensures
        merged(words, parts, k).len() == words,
        marked(merged(words, parts, k), j) <==> exists|i: int|
            0 <= i < k && #[trigger] marked(parts[i]@, j),
    decreases k,
{
    if k <= 0 {
        if 0 <= j && j / 64 < words {
            lemma_zero_bits((j % 64) as u64);
        }
    } else {
        lemma_merged(words, parts, k - 1, j);
        if 0 <= j && j / 64 < words {
            lemma_or_bits(
                merged(words, parts, k - 1)[j / 64],
                parts[k - 1]@[j / 64],
                (j % 64) as u64,
            );
        }
        assert(parts[k - 1]@.len() == words);
        if marked(parts[k - 1]@, j) {
            assert(marked(parts[k - 1]@, j));
        }
    }
}

/// Numbers the raw nodes that are marked in any part.
pub fn build_raw_node_mapping(words: usize, parts: &Vec<Vec<u64>>) -> (r: Result<
    RawNodeMapping,
    TooManyNodes,
>)
    requires
        forall|i: int| 0 <= i < parts@.len() ==> (#[trigger] parts@[i])@.len() == words,
    ensures
        r is Ok <==> rank(
            merged(words as nat, parts@, parts@.len() as int),
            64 * words as int,
        ) <= u32::MAX,
        r matches Ok(mapping) ==> {
            &&& mapping.wf()
            &&& mapping.bits@ == merged(words as nat, parts@, parts@.len() as int)
            &&& forall|j: int| #[trigger]
                marked(mapping.bits@, j) <==> exists|i: int|
                    0 <= i < parts@.len() && #[trigger] marked(parts@[i]@, j)
        },
{
    let mut bits: Vec<u64> = vec![0u64; words];
    let mut k: usize = 0;
    assert(bits@ =~= merged(words as nat, parts@, 0));
    while k < parts.len()
        invariant
            k <= parts@.len(),
            forall|i: int| 0 <= i < parts@.len() ==> (#[trigger] parts@[i])@.len() == words,
            bits@.len() == words,
            bits@ == merged(words as nat, parts@, k as int),
        decreases parts@.len() - k,
    {
        assert(parts@[k as int]@.len() == words);
        merge_bits(&mut bits, &parts[k]);
        assert(bits@ =~= merged(words as nat, parts@, k + 1));
        k = k + 1;
    }
    proof {
        assert forall|j: int| #[trigger]
            marked(bits@, j) <==> exists|i: int|
                0 <= i < parts@.len() && #[trigger] marked(parts@[i]@, j) by {
            lemma_merged(words as nat, parts@, parts@.len() as int, j);
        }
    }
    RawNodeMapping::new(bits)
}

/// The numbering of raw nodes is one to one, in their order, and without gaps: different nodes
/// have different numbers, a later node has a larger one, and every number below the count is
/// the number of a node.
pub proof fn lemma_compact_ids(mapping: &RawNodeMapping, a: u32, b: u32, c: u32)
    requires
        mapping.wf(),
        mapping.bits@.len() * 64 <= 0x1_0000_0000,
    ensures
        mapping.compact(a) is Some && mapping.compact(b) is Some && a < b ==> mapping.compact(a)->0
            < mapping.compact(b)->0,
        mapping.compact(a) matches Some(id) ==> id < mapping.compact_node_count,
        c < mapping.compact_node_count ==> exists|raw: u32| #[trigger]
            mapping.compact(raw) == Some(c),
{
    let bits = mapping.bits@;
    let end = 64 * bits.len() as int;
    if a < b {
        lemma_rank_grows(bits, a as int, b as int);
    }
    if marked(bits, a as int) {
        lemma_rank_grows(bits, a as int, end);
    }
    if marked(bits, b as int) {
        lemma_rank_grows(bits, b as int, end);
    }
    if c < mapping.compact_node_count {
        let j = lemma_rank_onto(bits, end, c as nat);
        assert(mapping.compact(j as u32) == Some(c));
    }
}

} // verus!
