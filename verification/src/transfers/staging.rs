//! How the build is staged: which tiles there are, how they are split into shards, and how the
//! work is spread and resumed.

use crate::transfers::mapping::RawNodeMapping;
use std::collections::HashMap;
use vstd::prelude::*;

verus! {

/// The version of the staged build's files.
pub const BUILD_VERSION: u32 = 1;

/// How many tiles a shard has, but for the last.
pub const RAW_TILE_SHARD_SIZE: usize = 512;

/// How many workers mark raw nodes at most.
pub const MAX_RAW_NODE_MAPPING_WORKERS: usize = 16;

/// How many workers translate shards at most.
pub const MAX_TRANSLATION_WORKERS: usize = 8;

/// How many workers prepare metadata at most.
pub const MAX_METADATA_PREP_WORKERS: usize = 8;

/// How many workers sort the node index at most.
pub const MAX_NODE_INDEX_BUCKET_WORKERS: usize = 16;

/// A tile: its number, how many nodes it has, and the raw number of the first.
#[derive(Clone, Copy, PartialEq, Eq, Structural, Debug)]
pub struct TileManifestEntry {
    pub tile_graph_id: u64,
    pub node_count: u32,
    pub raw_offset: u32,
}

/// The tiles that a build works on.
#[derive(Debug)]
pub struct BuildManifest {
    pub version: u32,
    pub valhalla_tile_dir: String,
    pub total_raw_nodes: u32,
    pub tiles: Vec<TileManifestEntry>,
}

/// Why no manifest can be made of the tiles that were found.
#[derive(Clone, Copy, PartialEq, Eq, Structural, Debug)]
pub enum ManifestError {
    /// A tile has more nodes than 32 bits can count.
    TileNodeCount,
    /// The raw number of a tile's first node does not fit in 32 bits.
    RawNodeSpace,
    /// There are more raw nodes than 32 bits can count.
    TotalNodeCount,
}

/// How many nodes the first `k` tiles have together.
pub open spec fn nodes_before(found: Seq<(u64, u64)>, k: int) -> int
    decreases k,
{
    if k <= 0 {
        0
    } else {
        nodes_before(found, k - 1) + found[k - 1].1
    }
}

/// What is wrong with tile `k`, if anything.
pub open spec fn tile_error(found: Seq<(u64, u64)>, k: int) -> Option<ManifestError> {
    if found[k].1 > u32::MAX {
        Some(ManifestError::TileNodeCount)
    } else if nodes_before(found, k) > u32::MAX {
        Some(ManifestError::RawNodeSpace)
    } else {
        None
    }
}

/// What is wrong with the tiles from tile `k` on, if anything: with the first of them that
/// something is wrong with, or with all of them together.
pub open spec fn first_error(found: Seq<(u64, u64)>, k: int) -> Option<ManifestError>
    decreases found.len() - k,
{
    if k >= found.len() {
        if nodes_before(found, found.len() as int) > u32::MAX {
            Some(ManifestError::TotalNodeCount)
        } else {
            None
        }
    } else if tile_error(found, k) is Some {
        tile_error(found, k)
    } else {
        first_error(found, k + 1)
    }
}

/// A manifest can be made exactly if 32 bits can count the nodes of all tiles together.
pub proof fn lemma_manifest_fits(found: Seq<(u64, u64)>, k: int)
    requires
        0 <= k <= found.len(),
    ensures
        0 <= nodes_before(found, k) <= nodes_before(found, found.len() as int),
        first_error(found, k) is None <==> nodes_before(found, found.len() as int) <= u32::MAX,
    decreases found.len() - k,
{
    lemma_nodes_grow(found, 0, k);
    lemma_nodes_grow(found, k, found.len() as int);
    if k < found.len() {
        lemma_manifest_fits(found, k + 1);
    }
}

proof fn lemma_nodes_grow(found: Seq<(u64, u64)>, a: int, b: int)
    requires
        0 <= a <= b <= found.len(),
    ensures
        nodes_before(found, a) <= nodes_before(found, b),
    decreases b,
{
    if a < b {
        lemma_nodes_grow(found, a, b - 1);
    }
}

/// Makes the manifest of the tiles that were found, each with its number and how many nodes it
/// has: their nodes are numbered one tile after the other.
pub fn discover_manifest(valhalla_tile_dir: String, found: &[(u64, u64)]) -> (r: Result<
    BuildManifest,
    ManifestError,
>)
    ensures
        r is Ok <==> first_error(found@, 0) is None,
        r matches Err(err) ==> first_error(found@, 0) == Some(err),
        r matches Ok(manifest) ==> {
            &&& manifest.version == BUILD_VERSION
            &&& manifest.valhalla_tile_dir == valhalla_tile_dir
            &&& manifest.total_raw_nodes == nodes_before(found@, found@.len() as int)
            &&& manifest.tiles@.len() == found@.len()
            &&& forall|k: int|
                0 <= k < found@.len() ==> {
                    &&& (#[trigger] manifest.tiles@[k]).tile_graph_id == found@[k].0
                    &&& manifest.tiles@[k].node_count == found@[k].1
                    &&& manifest.tiles@[k].raw_offset == nodes_before(found@, k)
                }
        },
        r is Ok <==> nodes_before(found@, found@.len() as int) <= u32::MAX,
        r matches Ok(manifest) ==> {
            &&& found@.len() == 0 ==> manifest.total_raw_nodes == 0
            &&& found@.len() > 0 ==> manifest.tiles@[0].raw_offset == 0
            &&& found@.len() > 0 ==> manifest.total_raw_nodes == manifest.tiles@.last().raw_offset
                + manifest.tiles@.last().node_count
            &&& forall|k: int, l: int|
                0 <= k && l == k + 1 && l < found@.len() ==> (
                #[trigger] manifest.tiles@[l]).raw_offset == (
                #[trigger] manifest.tiles@[k]).raw_offset + manifest.tiles@[k].node_count
        },
{
    proof {
        lemma_manifest_fits(found@, 0);
    }
    let mut tiles: Vec<TileManifestEntry> = Vec::new();
    let mut total: u64 = 0;
    let mut k: usize = 0;
    while k < found.len()
        invariant
            k <= found@.len(),
            first_error(found@, 0) == first_error(found@, k as int),
            total == nodes_before(found@, k as int),
            total <= 0x2_0000_0000,
            tiles@.len() == k,
            forall|j: int|
                0 <= j < k ==> {
                    &&& (#[trigger] tiles@[j]).tile_graph_id == found@[j].0
                    &&& tiles@[j].node_count == found@[j].1
                    &&& tiles@[j].raw_offset == nodes_before(found@, j)
                },
        decreases found@.len() - k,
    {
        proof {
            lemma_manifest_fits(found@, 0);
        }
        let (tile_graph_id, node_count): (u64, u64) = found[k];
        if node_count > u32::MAX as u64 {
            return Err(ManifestError::TileNodeCount);
        }
        if total > u32::MAX as u64 {
            return Err(ManifestError::RawNodeSpace);
        }
        tiles.push(
            TileManifestEntry {
                tile_graph_id,
                node_count: node_count as u32,
                raw_offset: total as u32,
            },
        );
        total = total + node_count;
        k = k + 1;
    }
    if total > u32::MAX as u64 {
        return Err(ManifestError::TotalNodeCount);
    }
    assert forall|k: int, l: int| 0 <= k && l == k + 1 && l < found@.len() implies (
    #[trigger] tiles@[l]).raw_offset == (#[trigger] tiles@[k]).raw_offset
        + tiles@[k].node_count by {
        assert(nodes_before(found@, l) == nodes_before(found@, k) + found@[k].1);
    }
    Ok(
        BuildManifest {
            version: BUILD_VERSION,
            valhalla_tile_dir,
            total_raw_nodes: total as u32,
            tiles,
        },
    )
}

/// What to do about the manifest.
#[derive(Clone, Copy, PartialEq, Eq, Structural, Debug)]
pub enum ManifestPlan {
    /// There is none: make one.
    Discover,
    /// There is one of another version or of other tiles: clear what was built, and make one.
    ResetAndDiscover,
    /// There is one, and it fits.
    Reuse,
}

impl BuildManifest {
    /// What a manifest is held against: its version, and where its tiles are.
    pub open spec fn fits(self) -> (u32, Seq<char>) {
        (self.version, self.valhalla_tile_dir@)
    }
}

/// What to do about the manifest for the tiles in `dir`, given what the stored one, if any, is
/// held against.
pub open spec fn manifest_plan(stored: Option<(u32, Seq<char>)>, dir: Seq<char>) -> ManifestPlan {
    match stored {
        None => ManifestPlan::Discover,
        Some((version, stored_dir)) => if version != BUILD_VERSION || stored_dir != dir {
            ManifestPlan::ResetAndDiscover
        } else {
            ManifestPlan::Reuse
        },
    }
}

/// What to do about the manifest, given the one that was stored, if any.
pub fn plan_manifest(stored: Option<&BuildManifest>, valhalla_tile_dir: &String) -> (plan:
    ManifestPlan)
    ensures
        plan == manifest_plan(
            match stored {
                None => None,
                Some(manifest) => Some(manifest.fits()),
            },
            valhalla_tile_dir@,
        ),
        plan == ManifestPlan::Discover <==> stored is None,
        plan == ManifestPlan::Reuse <==> (stored matches Some(manifest) && manifest.version == 1
            && manifest.valhalla_tile_dir@ == valhalla_tile_dir@),
{
    match stored {
        None => ManifestPlan::Discover,
        Some(manifest) => if manifest.version != BUILD_VERSION
            || !manifest.valhalla_tile_dir.eq(valhalla_tile_dir) {
            ManifestPlan::ResetAndDiscover
        } else {
            ManifestPlan::Reuse
        },
    }
}

/// Whether nothing is left to prepare: the build was completed, and what it made is still there.
pub fn already_prepared(completed: bool, metadata_exists: bool, node_index_exists: bool) -> (b:
    bool)
    ensures
        b == (completed && metadata_exists && node_index_exists),
{
    completed && metadata_exists && node_index_exists
}

/// The raw number of the first node of each tile; of tiles with the same number, of the last.
pub open spec fn offsets_of(tiles: Seq<TileManifestEntry>, k: int) -> Map<u64, u32>
    decreases k,
{
    if k <= 0 {
        Map::empty()
    } else {
        offsets_of(tiles, k - 1).insert(tiles[k - 1].tile_graph_id, tiles[k - 1].raw_offset)
    }
}

/// Every tile is found under its number: the last of those that have it.
pub proof fn lemma_offsets_found(tiles: Seq<TileManifestEntry>, k: int, id: u64)
    requires
        0 <= k <= tiles.len(),
    ensures
        offsets_of(tiles, k).contains_key(id) <==> exists|i: int|
            0 <= i < k && (#[trigger] tiles[i]).tile_graph_id == id,
        forall|i: int|
            0 <= i < k && (#[trigger] tiles[i]).tile_graph_id == id && (forall|j: int|
                i < j < k ==> (#[trigger] tiles[j]).tile_graph_id != id) ==> offsets_of(
                tiles,
                k,
            )[id] == tiles[i].raw_offset,
    decreases k,
{
    if k > 0 {
        lemma_offsets_found(tiles, k - 1, id);
        if tiles[k - 1].tile_graph_id == id {
            assert(tiles[k - 1].tile_graph_id == id);
        } else if offsets_of(tiles, k - 1).contains_key(id) {
            let i = choose|i: int| 0 <= i < k - 1 && (#[trigger] tiles[i]).tile_graph_id == id;
            assert(tiles[i].tile_graph_id == id);
        }
        assert forall|i: int|
            0 <= i < k && (#[trigger] tiles[i]).tile_graph_id == id && (forall|j: int|
                i < j < k ==> (#[trigger] tiles[j]).tile_graph_id != id) implies offsets_of(
            tiles,
            k,
        )[id] == tiles[i].raw_offset by {
            if i < k - 1 {
                assert(tiles[k - 1].tile_graph_id != id);
            }
        }
    }
}

/// The raw number of the first node of each tile.
pub fn tile_offsets(tiles: &[TileManifestEntry]) -> (offsets: HashMap<u64, u32>)
    ensures
        offsets@ == offsets_of(tiles@, tiles@.len() as int),
        forall|id: u64| #[trigger]
            offsets@.contains_key(id) <==> exists|i: int|
                0 <= i < tiles@.len() && (#[trigger] tiles@[i]).tile_graph_id == id,
        forall|i: int|
            0 <= i < tiles@.len() && (forall|j: int|
                i < j < tiles@.len() ==> (#[trigger] tiles@[j]).tile_graph_id
                    != tiles@[i].tile_graph_id) ==> offsets@[(
            #[trigger] tiles@[i]).tile_graph_id] == tiles@[i].raw_offset,
{
    broadcast use vstd::std_specs::hash::group_hash_axioms;

    proof {
        let n = tiles@.len() as int;
        assert forall|id: u64| #[trigger]
            offsets_of(tiles@, n).contains_key(id) <==> exists|i: int|
                0 <= i < n && (#[trigger] tiles@[i]).tile_graph_id == id by {
            lemma_offsets_found(tiles@, n, id);
        }
        assert forall|i: int|
            0 <= i < n && (forall|j: int|
                i < j < n ==> (#[trigger] tiles@[j]).tile_graph_id != tiles@[i].tile_graph_id)
            implies offsets_of(tiles@, n)[(#[trigger] tiles@[i]).tile_graph_id]
            == tiles@[i].raw_offset by {
            lemma_offsets_found(tiles@, n, tiles@[i].tile_graph_id);
        }
    }

    let mut offsets: HashMap<u64, u32> = HashMap::new();
    let mut k: usize = 0;
    while k < tiles.len()
        invariant
            k <= tiles@.len(),
            offsets@ == offsets_of(tiles@, k as int),
        decreases tiles@.len() - k,
    {
        offsets.insert(tiles[k].tile_graph_id, tiles[k].raw_offset);
        k = k + 1;
    }
    offsets
}

/// A run of tiles that is worked on at once.
#[derive(Clone, Copy, PartialEq, Eq, Structural, Debug)]
pub struct RawShardSpec {
    pub index: usize,
    pub start_tile: usize,
    pub end_tile: usize,
}

/// Splits the tiles into shards. Each tile is in one shard: the shards follow one another, from
/// the first tile to the last, and all but the last are full.
pub fn build_raw_shard_specs(tiles: usize) -> (shards: Vec<RawShardSpec>)
    ensures
        forall|k: int|
            0 <= k < shards@.len() ==> {
                &&& (#[trigger] shards@[k]).index == k
                &&& shards@[k].start_tile == 512 * k
                &&& shards@[k].start_tile < shards@[k].end_tile <= tiles
                &&& shards@[k].end_tile == (if k + 1 < shards@.len() {
                    512 * (k + 1)
                } else {
                    tiles as int
                })
                &&& shards@[k].end_tile - shards@[k].start_tile <= 512
            },
        shards@.len() == (tiles + 511) / 512,
{
    let mut shards: Vec<RawShardSpec> = Vec::new();
    let mut start_tile: usize = 0;
    while start_tile < tiles
        invariant
            start_tile <= tiles,
            start_tile < tiles ==> start_tile == 512 * shards@.len(),
            start_tile == tiles ==> shards@.len() == (tiles + 511) / 512,
            forall|k: int|
                0 <= k < shards@.len() ==> {
                    &&& (#[trigger] shards@[k]).index == k
                    &&& shards@[k].start_tile == 512 * k
                    &&& shards@[k].start_tile < shards@[k].end_tile <= tiles
                    &&& shards@[k].end_tile == (if k + 1 < shards@.len() || start_tile < tiles {
                        512 * (k + 1)
                    } else {
                        tiles as int
                    })
                    &&& shards@[k].end_tile - shards@[k].start_tile <= 512
                },
        decreases tiles - start_tile,
    {
        let end_tile: usize = if tiles - start_tile > RAW_TILE_SHARD_SIZE {
            start_tile + RAW_TILE_SHARD_SIZE
        } else {
            tiles
        };
        shards.push(RawShardSpec { index: shards.len(), start_tile, end_tile });
        start_tile = end_tile;
    }
    shards
}

/// Every tile is in exactly one shard.
pub proof fn lemma_shards_partition(shards: Seq<RawShardSpec>, tiles: int, tile: int)
    requires
        0 <= tile < tiles,
        shards.len() == (tiles + 511) / 512,
        forall|k: int|
            0 <= k < shards.len() ==> {
                &&& (#[trigger] shards[k]).start_tile == 512 * k
                &&& shards[k].end_tile == (if k + 1 < shards.len() {
                    512 * (k + 1)
                } else {
                    tiles
                })
            },
    ensures
        0 <= tile / 512 < shards.len(),
        shards[tile / 512].start_tile <= tile < shards[tile / 512].end_tile,
        forall|k: int|
            0 <= k < shards.len() && (#[trigger] shards[k]).start_tile <= tile < shards[k].end_tile
                ==> k == tile / 512,
{
    let at = tile / 512;
    assert(shards[at].start_tile == 512 * at);
}

/// The least of `items`, `threads` and `most`, but at least one.
pub open spec fn capped(items: int, threads: int, most: int) -> int {
    let fewer = if items < threads {
        items
    } else {
        threads
    };
    let least = if fewer < most {
        fewer
    } else {
        most
    };
    if least < 1 {
        1
    } else {
        least
    }
}

/// How many workers share `items` pieces of work: no more than there are pieces, threads, or
/// than `most`, but at least one.
pub fn workers(items: usize, threads: usize, most: usize) -> (n: usize)
    ensures
        n == capped(items as int, threads as int, most as int),
        n >= 1,
        n == 1 || n <= items && n <= threads && n <= most,
        n == 1 || n == items || n == threads || n == most,
        n == 1 ==> items <= 1 || threads <= 1 || most <= 1,
{
    let mut n: usize = items;
    if threads < n {
        n = threads;
    }
    if most < n {
        n = most;
    }
    if n < 1 {
        n = 1;
    }
    n
}

/// How many pieces of work each worker gets, but for the last: as few as suffice, but at least
/// one.
pub fn chunk_size(items: usize, workers: usize) -> (size: usize)
    requires
        workers >= 1,
    ensures
        size >= 1,
        size * workers >= items,
        size > 1 ==> (size - 1) * workers < items,
{
    let whole: usize = items / workers;
    proof {
        vstd::arithmetic::div_mod::lemma_fundamental_div_mod(items as int, workers as int);
        assert((whole + 1) * workers == whole * workers + workers) by (nonlinear_arith);
        assert(whole * workers == workers * whole) by (nonlinear_arith);
        if whole > 0 {
            assert((whole - 1) * workers == whole * workers - workers) by (nonlinear_arith);
        }
    }
    if items % workers != 0 || whole == 0 {
        proof {
            if whole > 0 {
                assert(whole * workers < items);
            } else {
                assert(items % workers < workers) by (nonlinear_arith)
                    requires
                        workers >= 1,
                ;
                assert(workers * whole == 0) by (nonlinear_arith)
                    requires
                        whole == 0,
                ;
                assert(items < workers);
            }
            assert(whole < usize::MAX) by {
                if whole == usize::MAX {
                    assert(workers == 1) by (nonlinear_arith)
                        requires
                            workers >= 1,
                            whole * workers <= usize::MAX,
                            whole == usize::MAX,
                    ;
                }
            }
        }
        whole + 1
    } else {
        whole
    }
}

/// Whether the progress is reported after `completed` of `total` pieces: after every `every` of
/// them, and at the end.
pub fn reports(completed: usize, total: usize, every: usize) -> (b: bool)
    requires
        every > 0,
    ensures
        b == (completed % every == 0 || completed == total),
{
    completed % every == 0 || completed == total
}

/// What is recorded when the build is complete but for the contraction.
#[derive(Clone, Copy, PartialEq, Eq, Structural, Debug)]
pub struct PreContractComplete {
    pub version: u32,
    pub compact_node_count: u32,
    pub raw_shard_count: usize,
}

/// The build of a transfer graph.
#[derive(Clone, Copy, PartialEq, Eq, Structural, Debug)]
pub struct TransferGraphBuildArtifacts {}

/// A graph that is ready for contraction: how many nodes it has, and in how many shards its ways
/// are.
#[derive(Clone, Copy, PartialEq, Eq, Structural, Debug)]
pub struct PreparedTransferGraph {
    pub compact_node_count: u32,
    pub raw_shard_count: usize,
}

impl TransferGraphBuildArtifacts {
    /// What to record of a build with this numbering of nodes and these shards.
    pub fn complete(mapping: &RawNodeMapping, shards: &Vec<RawShardSpec>) -> (complete:
        PreContractComplete)
        ensures
            complete.version == BUILD_VERSION,
            complete.compact_node_count == mapping.compact_node_count,
            complete.raw_shard_count == shards@.len(),
    {
        PreContractComplete {
            version: BUILD_VERSION,
            compact_node_count: mapping.compact_node_count,
            raw_shard_count: shards.len(),
        }
    }

    /// The graph of a build of which this was recorded.
    pub fn prepare(complete: &PreContractComplete) -> (graph: PreparedTransferGraph)
        ensures
            graph.compact_node_count == complete.compact_node_count,
            graph.raw_shard_count == complete.raw_shard_count,
    {
        PreparedTransferGraph {
            compact_node_count: complete.compact_node_count,
            raw_shard_count: complete.raw_shard_count,
        }
    }
}

impl PreparedTransferGraph {
    /// How many nodes the graph has.
    pub fn compact_node_count(&self) -> (n: u32)
        ensures
            n == self.compact_node_count,
    {
        self.compact_node_count
    }
}

/// A stage of the build.
#[derive(Clone, Copy, PartialEq, Eq, Structural, Debug)]
pub enum BuildStage {
    /// The tiles are listed.
    Manifest,
    /// Every shard is extracted.
    Extract,
    /// The raw nodes that occur are numbered.
    Number,
    /// Every shard is translated.
    Translate,
    /// The metadata of the ways is stored.
    Metadata,
    /// The points are indexed.
    Index,
    /// What was built is recorded.
    Record,
    /// The graph is ready for contraction.
    Ready,
}

/// What was found done before a build.
#[derive(Clone, Copy, PartialEq, Eq, Structural, Debug)]
pub struct DoneBefore {
    pub prepared: bool,
    pub metadata: bool,
    pub node_index: bool,
}

/// What is done before a build, given what is found: nothing is left to prepare if the build was
/// recorded and what it made is still there; the metadata, and the index, are done if they were
/// marked as done and are still there.
pub open spec fn done_given(
    recorded: bool,
    metadata_marked: bool,
    metadata_exists: bool,
    node_index_marked: bool,
    node_index_exists: bool,
) -> DoneBefore {
    DoneBefore {
        prepared: recorded && metadata_exists && node_index_exists,
        metadata: metadata_marked && metadata_exists,
        node_index: node_index_marked && node_index_exists,
    }
}

/// What is done before a build.
pub fn done_before(
    recorded: bool,
    metadata_marked: bool,
    metadata_exists: bool,
    node_index_marked: bool,
    node_index_exists: bool,
) -> (done: DoneBefore)
    ensures
        done == done_given(
            recorded,
            metadata_marked,
            metadata_exists,
            node_index_marked,
            node_index_exists,
        ),
        done.prepared == (recorded && metadata_exists && node_index_exists),
        done.metadata == (metadata_marked && metadata_exists),
        done.node_index == (node_index_marked && node_index_exists),
{
    DoneBefore {
        prepared: already_prepared(recorded, metadata_exists, node_index_exists),
        metadata: metadata_marked && metadata_exists,
        node_index: node_index_marked && node_index_exists,
    }
}

/// The stage that follows another: stages whose outcome was found done are passed over.
pub open spec fn stage_after(stage: BuildStage, done: DoneBefore) -> BuildStage {
    match stage {
        BuildStage::Manifest => if done.prepared {
            BuildStage::Ready
        } else {
            BuildStage::Extract
        },
        BuildStage::Extract => BuildStage::Number,
        BuildStage::Number => BuildStage::Translate,
        BuildStage::Translate => if !done.metadata {
            BuildStage::Metadata
        } else if !done.node_index {
            BuildStage::Index
        } else {
            BuildStage::Record
        },
        BuildStage::Metadata => if !done.node_index {
            BuildStage::Index
        } else {
            BuildStage::Record
        },
        BuildStage::Index => BuildStage::Record,
        BuildStage::Record => BuildStage::Ready,
        BuildStage::Ready => BuildStage::Ready,
    }
}

/// The stage after `k` steps from the first.
pub open spec fn stage_at(done: DoneBefore, k: nat) -> BuildStage
    decreases k,
{
    if k == 0 {
        BuildStage::Manifest
    } else {
        stage_after(stage_at(done, (k - 1) as nat), done)
    }
}

/// The stage that follows another.
pub fn next_stage(stage: BuildStage, done: &DoneBefore) -> (next: BuildStage)
    ensures
        next == stage_after(stage, *done),
{
    match stage {
        BuildStage::Manifest => if done.prepared {
            BuildStage::Ready
        } else {
            BuildStage::Extract
        },
        BuildStage::Extract => BuildStage::Number,
        BuildStage::Number => BuildStage::Translate,
        BuildStage::Translate => if !done.metadata {
            BuildStage::Metadata
        } else if !done.node_index {
            BuildStage::Index
        } else {
            BuildStage::Record
        },
        BuildStage::Metadata => if !done.node_index {
            BuildStage::Index
        } else {
            BuildStage::Record
        },
        BuildStage::Index => BuildStage::Record,
        BuildStage::Record => BuildStage::Ready,
        BuildStage::Ready => BuildStage::Ready,
    }
}

/// The stages of a build, one after the other: extract, number and translate, then what was not
/// found done of metadata and index, then the record.
pub proof fn lemma_stages(done: DoneBefore)
    ensures
        stage_at(done, 0) == BuildStage::Manifest,
        done.prepared ==> stage_at(done, 1) == BuildStage::Ready,
        !done.prepared ==> {
            &&& stage_at(done, 1) == BuildStage::Extract
            &&& stage_at(done, 2) == BuildStage::Number
            &&& stage_at(done, 3) == BuildStage::Translate
            &&& !done.metadata && !done.node_index ==> stage_at(done, 4) == BuildStage::Metadata
                && stage_at(done, 5) == BuildStage::Index && stage_at(done, 6)
                == BuildStage::Record && stage_at(done, 7) == BuildStage::Ready
            &&& !done.metadata && done.node_index ==> stage_at(done, 4) == BuildStage::Metadata
                && stage_at(done, 5) == BuildStage::Record && stage_at(done, 6)
                == BuildStage::Ready
            &&& done.metadata && !done.node_index ==> stage_at(done, 4) == BuildStage::Index
                && stage_at(done, 5) == BuildStage::Record && stage_at(done, 6)
                == BuildStage::Ready
            &&& done.metadata && done.node_index ==> stage_at(done, 4) == BuildStage::Record
                && stage_at(done, 5) == BuildStage::Ready
        },
{
    reveal_with_fuel(stage_at, 8);
    assert(stage_at(done, 4) == stage_after(stage_at(done, 3), done));
    assert(stage_at(done, 5) == stage_after(stage_at(done, 4), done));
    assert(stage_at(done, 6) == stage_after(stage_at(done, 5), done));
    assert(stage_at(done, 7) == stage_after(stage_at(done, 6), done));
}

/// Every build ends with a graph that is ready; unless it was prepared before, nodes are numbered
/// and recorded on the way, and metadata and index are built unless they were found done.
pub proof fn lemma_build_ends(done: DoneBefore)
    ensures
        stage_at(done, 7) == BuildStage::Ready,
        !done.prepared ==> {
            &&& stage_at(done, 2) == BuildStage::Number
            &&& exists|k: nat| k < 7 && #[trigger] stage_at(done, k) == BuildStage::Record
        },
        !done.prepared && !done.metadata ==> exists|k: nat|
            k < 7 && #[trigger] stage_at(done, k) == BuildStage::Metadata,
        !done.prepared && !done.node_index ==> exists|k: nat|
            k < 7 && #[trigger] stage_at(done, k) == BuildStage::Index,
{
    reveal_with_fuel(stage_at, 8);
    assert(stage_at(done, 4) == stage_after(stage_at(done, 3), done));
    assert(stage_at(done, 5) == stage_after(stage_at(done, 4), done));
    assert(stage_at(done, 6) == stage_after(stage_at(done, 5), done));
    assert(stage_at(done, 7) == stage_after(stage_at(done, 6), done));
}

/// What is stored of a build: what its manifest is held against, which of its markers and of the
/// files that it makes exist, what was recorded of it, and whether the graph was contracted.
///
/// This stands for the files that the program around the library reads and writes; no function
/// of the library does. The laws below hold of that program as far as it stores, at each stage
/// that `next_stage` gives, what `stored_by` says.
#[verifier::ext_equal]
pub struct BuildFiles {
    pub manifest: Option<(u32, Seq<char>)>,
    pub metadata_marked: bool,
    pub metadata_exists: bool,
    pub node_index_marked: bool,
    pub node_index_exists: bool,
    pub complete: Option<PreContractComplete>,
    pub contracted: bool,
}

/// What is stored once there is a manifest of the tiles in `dir`.
pub open spec fn with_manifest(files: BuildFiles, dir: Seq<char>) -> BuildFiles {
    match manifest_plan(files.manifest, dir) {
        ManifestPlan::Discover => BuildFiles { manifest: Some((BUILD_VERSION, dir)), ..files },
        ManifestPlan::ResetAndDiscover => BuildFiles {
            manifest: Some((BUILD_VERSION, dir)),
            metadata_marked: false,
            metadata_exists: false,
            node_index_marked: false,
            node_index_exists: false,
            complete: None,
            contracted: false,
        },
        ManifestPlan::Reuse => files,
    }
}

/// What is done before a build that finds `files`.
pub open spec fn found_done(files: BuildFiles) -> DoneBefore {
    done_given(
        files.complete is Some,
        files.metadata_marked,
        files.metadata_exists,
        files.node_index_marked,
        files.node_index_exists,
    )
}

/// What is stored after a stage; `complete` is what is recorded.
pub open spec fn stored_by(
    files: BuildFiles,
    stage: BuildStage,
    complete: PreContractComplete,
) -> BuildFiles {
    match stage {
        BuildStage::Metadata => BuildFiles {
            metadata_marked: true,
            metadata_exists: true,
            ..files
        },
        BuildStage::Index => BuildFiles {
            node_index_marked: true,
            node_index_exists: true,
            ..files
        },
        BuildStage::Record => BuildFiles { complete: Some(complete), ..files },
        _ => files,
    }
}

/// What is stored after `k` stages.
pub open spec fn stored_at(
    files: BuildFiles,
    done: DoneBefore,
    complete: PreContractComplete,
    k: nat,
) -> BuildFiles
    decreases k,
{
    if k == 0 {
        files
    } else {
        stored_by(
            stored_at(files, done, complete, (k - 1) as nat),
            stage_at(done, k),
            complete,
        )
    }
}

/// What is stored after a build of the tiles in `dir`, which ends within seven stages.
pub open spec fn stored_after(
    files: BuildFiles,
    dir: Seq<char>,
    complete: PreContractComplete,
) -> BuildFiles {
    let begun = with_manifest(files, dir);
    stored_at(begun, found_done(begun), complete, 7)
}

/// After a build, whatever was found before it, there are the manifest, the metadata, the node
/// index, and a record. That is the one of this build, unless nothing was left to prepare.
pub proof fn lemma_build_stores(files: BuildFiles, dir: Seq<char>, complete: PreContractComplete)
    ensures
        stored_after(files, dir, complete).manifest == Some((BUILD_VERSION, dir)),
        stored_after(files, dir, complete).metadata_exists,
        stored_after(files, dir, complete).node_index_exists,
        stored_after(files, dir, complete).complete == (if found_done(
            with_manifest(files, dir),
        ).prepared {
            with_manifest(files, dir).complete
        } else {
            Some(complete)
        }),
        stored_after(files, dir, complete).complete is Some,
{
    let begun = with_manifest(files, dir);
    let done = found_done(begun);
    reveal_with_fuel(stage_at, 8);
    reveal_with_fuel(stored_at, 8);
    assert(stage_at(done, 4) == stage_after(stage_at(done, 3), done));
    assert(stage_at(done, 5) == stage_after(stage_at(done, 4), done));
    assert(stage_at(done, 6) == stage_after(stage_at(done, 5), done));
    assert(stage_at(done, 7) == stage_after(stage_at(done, 6), done));
}

/// A second build of the same tiles changes nothing: it keeps the manifest, finds nothing left to
/// prepare, goes through no stage that works, and leaves what is stored, the record with its
/// number of nodes among it, as it was.
pub proof fn lemma_build_again(
    files: BuildFiles,
    dir: Seq<char>,
    complete: PreContractComplete,
    again: PreContractComplete,
    k: nat,
)
    requires
        k >= 1,
    ensures
        ({
            let stored = stored_after(files, dir, complete);
            &&& manifest_plan(stored.manifest, dir) == ManifestPlan::Reuse
            &&& found_done(stored).prepared
            &&& stage_at(found_done(stored), k) == BuildStage::Ready
            &&& stored_at(stored, found_done(stored), again, k) == stored
            &&& stored_after(stored, dir, again) == stored
        }),
{
    let stored = stored_after(files, dir, complete);
    lemma_build_stores(files, dir, complete);
    assert(with_manifest(stored, dir) == stored);
    lemma_nothing_left(stored, again, k);
    lemma_nothing_left(stored, again, 7);
}

/// Where nothing is left to prepare, nothing is stored.
proof fn lemma_nothing_left(files: BuildFiles, complete: PreContractComplete, k: nat)
    requires
        found_done(files).prepared,
        k >= 1,
    ensures
        stage_at(found_done(files), k) == BuildStage::Ready,
        stored_at(files, found_done(files), complete, k) == files,
    decreases k,
{
    reveal_with_fuel(stage_at, 2);
    reveal_with_fuel(stored_at, 2);
    if k > 1 {
        lemma_nothing_left(files, complete, (k - 1) as nat);
    }
}

/// What to do with a graph that is ready for contraction.
#[derive(Clone, Copy, PartialEq, Eq, Structural, Debug)]
pub enum ExportAction {
    /// Tell how far it could be reduced.
    Analyze,
    /// Leave it for a later run.
    Leave,
    /// Contract it.
    Contract,
    /// Nothing: it was contracted before.
    Done,
}

/// What to do with a graph that is ready for contraction, as far as it was not contracted.
pub fn export_action(reduction_stats_only: bool, prepare_only: bool, contracted: bool) -> (action:
    ExportAction)
    ensures
        action == (if reduction_stats_only {
            ExportAction::Analyze
        } else if prepare_only {
            ExportAction::Leave
        } else if contracted {
            ExportAction::Done
        } else {
            ExportAction::Contract
        }),
{
    if reduction_stats_only {
        ExportAction::Analyze
    } else if prepare_only {
        ExportAction::Leave
    } else if contracted {
        ExportAction::Done
    } else {
        ExportAction::Contract
    }
}

} // verus!
