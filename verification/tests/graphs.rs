use solari::transfers::extraction::{
    fits, should_skip_edge, EdgeFacts, ExtractError, NodeFacts, RawShard,
};
use solari::transfers::index::{
    build_transfer_node_index, prepare_node_index_bucket, read_u64_file, write_bucket, WrongLength,
};
use solari::transfers::mapping::{
    bit_words, build_raw_node_mapping, mark_raw_node, mark_shard, merge_bits, no_bits, shard_fits,
    RawNodeMapping,
};
use solari::transfers::patterns::top_keys;
use solari::transfers::records::{
    read_all, write_all, ByteOrder, CompactGraphEdgeRecord, CompactMetadataRecord,
    CompactPointRecord, PointRecord, RawGraphEdgeRecord, RawMetadataRecord, RecordError,
};
use solari::transfers::reduction::{summarize, NodeDegrees};
use solari::transfers::shards::{prepare_metadata, translate_raw_shard, MetadataError};
use solari::transfers::staging::{
    already_prepared, build_raw_shard_specs, chunk_size, discover_manifest, done_before,
    export_action, next_stage, plan_manifest, reports, tile_offsets, workers, BuildManifest,
    BuildStage, DoneBefore, ExportAction, ManifestError, ManifestPlan, PreContractComplete,
    PreparedTransferGraph, RawShardSpec, TileManifestEntry, TransferGraphBuildArtifacts,
};
use solari::transfers::translation::{
    point_bucket, prepare_metadata_shard, shape_range, translate_edges, translate_points,
    upsert_edge_metadata, ShapeOutOfBounds,
};

fn edge(from_raw: u32, to_raw: u32, weight_mm: u32) -> RawGraphEdgeRecord {
    RawGraphEdgeRecord {
        from_raw,
        to_raw,
        weight_mm,
    }
}

fn way(from: u32, to: u32) -> CompactGraphEdgeRecord {
    CompactGraphEdgeRecord {
        from,
        to,
        weight_mm: 1,
    }
}

fn mapping(raw_nodes: &[u32], words: usize) -> RawNodeMapping {
    let mut bits = no_bits(words);
    for node in raw_nodes {
        mark_raw_node(&mut bits, *node);
    }
    RawNodeMapping::new(bits).expect("few nodes")
}

#[test]
fn tiles_are_numbered_one_after_the_other() {
    let manifest = discover_manifest("tiles".to_string(), &[(8, 3), (5, 0), (9, 4)]).expect("fits");
    assert_eq!(manifest.total_raw_nodes, 7);
    assert_eq!(manifest.version, 1);
    assert_eq!(
        manifest.tiles,
        vec![
            TileManifestEntry {
                tile_graph_id: 8,
                node_count: 3,
                raw_offset: 0
            },
            TileManifestEntry {
                tile_graph_id: 5,
                node_count: 0,
                raw_offset: 3
            },
            TileManifestEntry {
                tile_graph_id: 9,
                node_count: 4,
                raw_offset: 3
            }
        ]
    );
    let offsets = tile_offsets(&manifest.tiles);
    assert_eq!(offsets.get(&9), Some(&3));
    assert_eq!(offsets.get(&7), None);
}

#[test]
fn too_many_nodes_are_refused() {
    let most = u32::MAX as u64;
    let refused = |found: &[(u64, u64)]| discover_manifest(String::new(), found).err();
    assert_eq!(refused(&[(1, most + 1)]), Some(ManifestError::TileNodeCount));
    assert_eq!(refused(&[(1, most), (2, 1), (3, 1)]), Some(ManifestError::RawNodeSpace));
    assert_eq!(refused(&[(1, most), (2, 1)]), Some(ManifestError::TotalNodeCount));
    assert_eq!(refused(&[(1, most)]), None);
}

#[test]
fn a_stored_manifest_is_reused_only_for_the_same_tiles() {
    let dir = "tiles".to_string();
    let manifest = |version: u32, dir: &str| BuildManifest {
        version,
        valhalla_tile_dir: dir.to_string(),
        total_raw_nodes: 0,
        tiles: vec![],
    };
    assert_eq!(plan_manifest(None, &dir), ManifestPlan::Discover);
    assert_eq!(plan_manifest(Some(&manifest(1, "tiles")), &dir), ManifestPlan::Reuse);
    assert_eq!(plan_manifest(Some(&manifest(2, "tiles")), &dir), ManifestPlan::ResetAndDiscover);
    assert_eq!(plan_manifest(Some(&manifest(1, "other")), &dir), ManifestPlan::ResetAndDiscover);
    assert!(already_prepared(true, true, true));
    assert!(!already_prepared(true, false, true));
}

#[test]
fn every_tile_is_in_one_shard() {
    for tiles in [0usize, 1, 511, 512, 513, 1024, 1300] {
        let shards = build_raw_shard_specs(tiles);
        assert_eq!(shards.len(), tiles.div_ceil(512));
        let mut next = 0;
        for (i, shard) in shards.iter().enumerate() {
            assert_eq!((shard.index, shard.start_tile), (i, next));
            assert!(shard.end_tile - shard.start_tile <= 512);
            next = shard.end_tile;
        }
        assert_eq!(next, tiles);
    }
    assert_eq!(
        build_raw_shard_specs(513)[1],
        RawShardSpec {
            index: 1,
            start_tile: 512,
            end_tile: 513
        }
    );
}

#[test]
fn work_is_spread_over_workers() {
    assert_eq!(workers(100, 32, 16), 16);
    assert_eq!(workers(100, 4, 16), 4);
    assert_eq!(workers(3, 32, 16), 3);
    assert_eq!(workers(0, 32, 16), 1);
    assert_eq!(chunk_size(100, 16), 7);
    assert_eq!(chunk_size(96, 16), 6);
    assert_eq!(chunk_size(0, 1), 1);
    assert!(reports(8, 100, 8));
    assert!(!reports(9, 100, 8));
    assert!(reports(9, 9, 8));
}

#[test]
fn what_is_missing_is_not_done() {
    let done = done_before(true, true, true, true, true);
    assert!(done.prepared && done.metadata && done.node_index);
    let done = done_before(true, true, false, true, true);
    assert_eq!((done.prepared, done.metadata, done.node_index), (false, false, true));
    assert_eq!(next_stage(BuildStage::Translate, &done), BuildStage::Metadata);
    assert_eq!(next_stage(BuildStage::Metadata, &done), BuildStage::Record);
    let done = done_before(true, true, true, true, false);
    assert_eq!((done.prepared, done.metadata, done.node_index), (false, true, false));
    assert_eq!(next_stage(BuildStage::Translate, &done), BuildStage::Index);
    let done = done_before(false, false, true, false, true);
    assert_eq!((done.prepared, done.metadata, done.node_index), (false, false, false));
}

#[test]
fn a_second_build_finds_all_done() {
    let dir = "tiles".to_string();
    let manifest = discover_manifest(dir.clone(), &[(7, 100)]).expect("few nodes");
    let complete = PreContractComplete {
        version: 1,
        compact_node_count: 42,
        raw_shard_count: build_raw_shard_specs(manifest.tiles.len()).len(),
    };
    assert_eq!(plan_manifest(Some(&manifest), &dir), ManifestPlan::Reuse);
    let done = done_before(true, true, true, true, true);
    assert_eq!(next_stage(BuildStage::Manifest, &done), BuildStage::Ready);
    let graph = TransferGraphBuildArtifacts::prepare(&complete);
    assert_eq!(graph.compact_node_count(), 42);
    assert_eq!(graph.raw_shard_count, 1);
}

#[test]
fn stages_that_were_done_are_passed_over() {
    let stages = |prepared: bool, metadata: bool, node_index: bool| {
        let done = DoneBefore {
            prepared,
            metadata,
            node_index,
        };
        let mut stages = vec![BuildStage::Manifest];
        while stages[stages.len() - 1] != BuildStage::Ready {
            stages.push(next_stage(stages[stages.len() - 1], &done));
        }
        stages
    };
    assert_eq!(stages(true, false, false), vec![BuildStage::Manifest, BuildStage::Ready]);
    assert_eq!(
        stages(false, false, false),
        vec![
            BuildStage::Manifest,
            BuildStage::Extract,
            BuildStage::Number,
            BuildStage::Translate,
            BuildStage::Metadata,
            BuildStage::Index,
            BuildStage::Record,
            BuildStage::Ready
        ]
    );
    assert_eq!(stages(false, true, true).len(), 6);
    assert!(!stages(false, true, false).contains(&BuildStage::Metadata));
    assert!(!stages(false, false, true).contains(&BuildStage::Index));
}

#[test]
fn a_prepared_graph_is_exported_as_asked() {
    assert_eq!(export_action(true, true, false), ExportAction::Analyze);
    assert_eq!(export_action(false, true, false), ExportAction::Leave);
    assert_eq!(export_action(false, false, false), ExportAction::Contract);
    assert_eq!(export_action(false, false, true), ExportAction::Done);
    let complete =
        TransferGraphBuildArtifacts::complete(&mapping(&[1, 5], 1), &build_raw_shard_specs(600));
    assert_eq!(
        (complete.version, complete.compact_node_count, complete.raw_shard_count),
        (1, 2, 2)
    );
    let graph = TransferGraphBuildArtifacts::prepare(&complete);
    assert_eq!(graph.compact_node_count(), 2);
}

fn facts(end_tile: u64, end_index: u32) -> EdgeFacts {
    EdgeFacts {
        transit_line: false,
        shortcut: false,
        ferry: false,
        shape_cells: vec![10, 11],
        end_tile,
        end_index,
        length_bits: 1.5f64.to_bits(),
        millimetres_bits: 1500f64.to_bits(),
        encoded_shape: Some(b"abc".to_vec()),
        forward_pedestrian: true,
        reverse_pedestrian: false,
    }
}

fn tile(node_count: u32) -> TileManifestEntry {
    TileManifestEntry {
        tile_graph_id: 1,
        node_count,
        raw_offset: 100,
    }
}

#[test]
fn edges_become_ways_points_and_metadata() {
    let offsets = tile_offsets(&[tile(3)]);
    let mut both = facts(1, 2);
    both.reverse_pedestrian = true;
    both.encoded_shape = Some(b"de".to_vec());
    let nodes = vec![
        NodeFacts {
            pedestrian: true,
            edges: vec![facts(1, 1), both],
        },
        NodeFacts {
            pedestrian: false,
            edges: vec![facts(1, 0)],
        },
        NodeFacts {
            pedestrian: true,
            edges: vec![facts(9, 0), facts(1, 2)],
        },
    ];
    let mut shard = RawShard::new();
    assert_eq!(shard.extract_tile(&tile(3), &nodes, &offsets), Ok(()));
    assert_eq!(
        shard.graph_edges,
        vec![edge(100, 101, 1500), edge(100, 102, 1500), edge(102, 100, 1500)]
    );
    assert_eq!(shard.points.len(), 8);
    assert_eq!(
        shard.points[7],
        PointRecord {
            cell: 11,
            raw_node: 102
        }
    );
    assert_eq!(shard.metadata_records.len(), 2);
    assert_eq!(
        (shard.metadata_records[1].shape_offset, shard.metadata_records[1].shape_len),
        (3, 2)
    );
    assert_eq!(shard.metadata_shapes, b"abcde".to_vec());
}

#[test]
fn what_is_extracted_is_translated_without_loss() {
    let offsets = tile_offsets(&[tile(3)]);
    let nodes = vec![
        NodeFacts {
            pedestrian: true,
            edges: vec![facts(1, 1), facts(1, 2)],
        },
        NodeFacts {
            pedestrian: true,
            edges: vec![facts(1, 0)],
        },
        NodeFacts {
            pedestrian: true,
            edges: vec![],
        },
    ];
    let mut shard = RawShard::new();
    assert_eq!(shard.extract_tile(&tile(3), &nodes, &offsets), Ok(()));
    let mut bits = no_bits(2);
    mark_shard(&mut bits, &shard.graph_edges, &shard.points);
    let m = RawNodeMapping::new(bits).expect("few nodes");
    let ways = translate_edges(&shard.graph_edges, &m);
    assert_eq!(ways.len(), shard.graph_edges.len());
    let (records, shapes) =
        prepare_metadata_shard(&shard.metadata_records, &shard.metadata_shapes, &m).expect("found");
    assert_eq!(records.len(), 3);
    assert_eq!(shapes, b"abcabcabc".to_vec());
}

#[test]
fn some_edges_are_skipped() {
    let offsets = tile_offsets(&[tile(3)]);
    for flag in 0..3 {
        let mut skipped = facts(1, 1);
        skipped.transit_line = flag == 0;
        skipped.shortcut = flag == 1;
        skipped.ferry = flag == 2;
        assert!(should_skip_edge(&skipped));
        let mut shard = RawShard::new();
        assert_eq!(shard.extract_edge(100, &skipped, &offsets), Ok(()));
        assert!(shard.points.is_empty());
    }
    assert!(!should_skip_edge(&facts(1, 1)));
    assert!(fits(&facts(1, u32::MAX - 100), &offsets));
    assert!(!fits(&facts(1, u32::MAX - 99), &offsets));
}

#[test]
fn faulty_edges_are_refused() {
    let offsets = tile_offsets(&[tile(3)]);
    let mut too_long = facts(1, 1);
    too_long.millimetres_bits = 1e12f64.to_bits();
    let mut shard = RawShard::new();
    assert_eq!(
        shard.extract_edge(100, &too_long, &offsets),
        Err(ExtractError::WeightDoesNotFit)
    );
    let mut not_encoded = facts(1, 1);
    not_encoded.encoded_shape = None;
    let nodes = vec![NodeFacts {
        pedestrian: true,
        edges: vec![facts(1, 1), not_encoded],
    }];
    let mut shard = RawShard::new();
    assert_eq!(
        shard.extract_tile(&tile(1), &nodes, &offsets),
        Err(ExtractError::ShapeNotEncoded)
    );
}

#[test]
fn compact_numbers_keep_the_order_and_leave_no_gap() {
    let raw = [3u32, 63, 64, 65, 127, 128, 200];
    let m = mapping(&raw, 4);
    assert_eq!(m.compact_node_count, 7);
    for (id, node) in raw.iter().enumerate() {
        assert_eq!(m.compact_node_id(*node), Some(id as u32));
    }
    for node in [0u32, 2, 4, 62, 66, 126, 129, 255, 256, u32::MAX] {
        assert_eq!(m.compact_node_id(node), None);
    }
}

#[test]
fn marks_of_several_workers_are_merged() {
    assert_eq!(bit_words(0), 1);
    assert_eq!(bit_words(64), 1);
    assert_eq!(bit_words(65), 2);
    let edges = [edge(1, 70, 5)];
    let points = [PointRecord {
        cell: 0,
        raw_node: 2,
    }];
    assert!(shard_fits(&edges, &points, 2));
    assert!(!shard_fits(&edges, &points, 1));
    let mut a = no_bits(2);
    mark_shard(&mut a, &edges, &points);
    assert_eq!(a, vec![0b110, 1 << 6]);
    let mut b = no_bits(2);
    mark_raw_node(&mut b, 0);
    let m = build_raw_node_mapping(2, &vec![a.clone(), b.clone()]).expect("few nodes");
    assert_eq!(m.compact_node_count, 4);
    assert_eq!(m.compact_node_id(70), Some(3));
    merge_bits(&mut a, &b);
    assert_eq!(a, m.bits);
}

#[test]
fn ways_and_points_are_translated() {
    let m = mapping(&[10, 20], 1);
    let edges = [edge(10, 20, 5), edge(20, 11, 6), edge(20, 10, 7)];
    assert_eq!(
        translate_edges(&edges, &m),
        vec![
            CompactGraphEdgeRecord {
                from: 0,
                to: 1,
                weight_mm: 5
            },
            CompactGraphEdgeRecord {
                from: 1,
                to: 0,
                weight_mm: 7
            }
        ]
    );
    assert_eq!(point_bucket(u64::MAX), 4095);
    assert_eq!(point_bucket(1 << 52), 1);
    assert_eq!(point_bucket((1 << 52) - 1), 0);
    let points = [
        PointRecord {
            cell: 5 << 52,
            raw_node: 20,
        },
        PointRecord {
            cell: 5 << 52,
            raw_node: 21,
        },
        PointRecord {
            cell: 7,
            raw_node: 10,
        },
    ];
    let buckets = translate_points(&points, &m);
    assert_eq!(buckets.len(), 4096);
    assert_eq!(
        buckets[5],
        vec![CompactPointRecord {
            cell: 5 << 52,
            compact_node: 1
        }]
    );
    assert_eq!(buckets[0].len(), 1);
    assert_eq!(buckets.iter().map(|b| b.len()).sum::<usize>(), 2);
}

#[test]
fn shards_are_translated_in_bytes() {
    let order = ByteOrder::Big;
    let m = mapping(&[10, 20], 1);
    let mut edges = Vec::new();
    write_all::<RawGraphEdgeRecord>(order, &[edge(10, 20, 5)], &mut edges);
    let mut points = Vec::new();
    let point = PointRecord {
        cell: 9 << 52,
        raw_node: 10,
    };
    write_all::<PointRecord>(order, &[point], &mut points);
    let shard = translate_raw_shard(order, &edges, &points, &m).expect("whole records");
    assert_eq!(
        read_all::<CompactGraphEdgeRecord>(order, &shard.compact_graph_edges).map(|e| e.len()),
        Ok(1)
    );
    assert_eq!(
        read_all::<CompactPointRecord>(order, &shard.point_buckets[9]),
        Ok(vec![CompactPointRecord {
            cell: 9 << 52,
            compact_node: 0
        }])
    );
    assert_eq!(
        translate_raw_shard(order, &edges[..4], &points[..1], &m).err(),
        Some(RecordError::Truncated)
    );
    assert_eq!(
        translate_raw_shard(order, &edges, &points[..1], &m).err(),
        Some(RecordError::InsideField)
    );
}

fn metadata(from_raw: u32, to_raw: u32, shape_offset: u64, shape_len: u32) -> RawMetadataRecord {
    RawMetadataRecord {
        from_raw,
        to_raw,
        length_bits: 77,
        shape_offset,
        shape_len,
    }
}

#[test]
fn metadata_keeps_the_shapes_that_are_needed() {
    let m = mapping(&[10, 20], 1);
    let shapes = b"abcdefgh";
    let records = [
        metadata(10, 20, 6, 2),
        metadata(10, 11, 0, 99),
        metadata(20, 10, 1, 3),
    ];
    let (compact, kept) = prepare_metadata_shard(&records, shapes, &m).expect("in bounds");
    assert_eq!(kept, b"ghbcd".to_vec());
    assert_eq!(
        compact[1],
        CompactMetadataRecord {
            from: 1,
            to: 0,
            length_bits: 77,
            shape_offset: 2,
            shape_len: 3
        }
    );
    assert_eq!(shape_range(&compact[1], kept.len()), Ok((2, 5)));
    assert_eq!(shape_range(&compact[1], 4), Err(ShapeOutOfBounds {}));
    assert_eq!(
        prepare_metadata_shard(&[metadata(10, 20, 7, 2)], shapes, &m),
        Err(ShapeOutOfBounds {})
    );
    assert_eq!(
        prepare_metadata_shard(&[metadata(10, 20, u64::MAX, 2)], shapes, &m),
        Err(ShapeOutOfBounds {})
    );
}

#[test]
fn metadata_is_prepared_in_bytes() {
    let order = ByteOrder::Little;
    let m = mapping(&[10, 20], 1);
    let mut bytes = Vec::new();
    write_all::<RawMetadataRecord>(order, &[metadata(10, 20, 1, 2)], &mut bytes);
    let (records, shapes) = prepare_metadata(order, &bytes, b"abc", &m).expect("in bounds");
    assert_eq!(shapes, b"bc".to_vec());
    assert_eq!(read_all::<CompactMetadataRecord>(order, &records).map(|r| r[0].to), Ok(1));
    bytes.push(0);
    assert_eq!(
        prepare_metadata(order, &bytes, b"abc", &m).err(),
        Some(MetadataError::Record(RecordError::InsideField))
    );
    assert_eq!(
        prepare_metadata(order, &bytes, b"ab", &m).err(),
        Some(MetadataError::ShapeOutOfBounds)
    );
}

#[test]
fn the_shortest_metadata_is_kept() {
    let bits = |m: f64| m.to_bits();
    assert!(upsert_edge_metadata(None, bits(5.0)));
    assert!(upsert_edge_metadata(Some(bits(5.0)), bits(4.9)));
    assert!(!upsert_edge_metadata(Some(bits(5.0)), bits(5.0)));
    assert!(!upsert_edge_metadata(Some(bits(5.0)), bits(5.1)));
    assert!(!upsert_edge_metadata(Some(bits(f64::NAN)), bits(1.0)));
    assert!(!upsert_edge_metadata(Some(bits(1.0)), bits(f64::NAN)));
    let mut stored = None;
    let mut kept = None;
    for (i, length) in [7.0, 3.5, 4.0, 3.5, 9.0].into_iter().enumerate() {
        if upsert_edge_metadata(stored, bits(length)) {
            stored = Some(bits(length));
            kept = Some(i);
        }
    }
    assert_eq!(stored, Some(bits(3.5)));
    assert_eq!(kept, Some(1));
}

fn point(cell: u64, compact_node: u32) -> CompactPointRecord {
    CompactPointRecord { cell, compact_node }
}

#[test]
fn the_index_is_in_the_order_of_cells() {
    let order = ByteOrder::Little;
    let high = 3u64 << 52;
    let first = prepare_node_index_bucket(&vec![vec![point(9, 1), point(2, 7)], vec![point(5, 3)]]);
    assert_eq!(first, vec![point(2, 7), point(5, 3), point(9, 1)]);
    let last = prepare_node_index_bucket(&vec![vec![], vec![point(high + 1, 4), point(high, 6)]]);
    let buckets = [write_bucket(order, &first), write_bucket(order, &last)];
    assert_eq!(buckets[0].count, 3);
    let index = build_transfer_node_index(order, &buckets);
    let numbers: Vec<u64> = index
        .chunks(8)
        .map(|b| u64::from_le_bytes(b.try_into().expect("eight bytes")))
        .collect();
    assert_eq!(numbers, vec![5, 2, 5, 9, high, high + 1, 7, 3, 1, 6, 4]);
}

#[test]
fn a_file_with_one_number_has_eight_bytes() {
    let bytes = 0x0102_0304_0506_0708u64.to_be_bytes();
    assert_eq!(read_u64_file(ByteOrder::Big, &bytes), Ok(0x0102_0304_0506_0708));
    assert_eq!(
        read_u64_file(ByteOrder::Big, &bytes[..7]),
        Err(WrongLength { bytes: 7 })
    );
}

#[test]
fn nodes_are_told_apart_by_their_degrees() {
    let graph = PreparedTransferGraph {
        compact_node_count: 6,
        raw_shard_count: 2,
    };
    let shards = vec![
        vec![way(0, 1), way(1, 2), way(1, 0), way(2, 1)],
        vec![way(3, 3), way(4, 3), way(4, 3)],
    ];
    let stats = graph.analyze_reduction_potential(&shards);
    assert_eq!((stats.compact_node_count, stats.edge_count), (6, 7));
    assert_eq!(stats.zero_degree_nodes, 1);
    assert_eq!(stats.nodes_with_any_edge, 5);
    assert_eq!(stats.self_loop_nodes, 1);
    assert_eq!(stats.simple_chain_nodes, 2);
    assert_eq!(stats.branch_nodes, 2);
    assert_eq!(stats.dead_end_nodes, 1);
    assert_eq!((stats.max_in_degree, stats.max_out_degree), (3, 2));
    assert_eq!(stats.estimated_keep_nodes, 4);
    assert_eq!(stats.estimated_collapsible_nodes, 2);
    let top = stats.top_degree_patterns[0];
    assert_eq!((top.in_degree, top.out_degree, top.count), (1, 1, 2));
    assert_eq!(stats.top_degree_patterns.iter().map(|p| p.count).sum::<u64>(), 6);
    assert_eq!(stats.top_neighbor_patterns.iter().map(|p| p.count).sum::<u64>(), 6);
}

#[test]
fn an_empty_graph_has_no_figures() {
    let stats = summarize(&vec![], 0);
    assert_eq!((stats.compact_node_count, stats.max_in_degree), (0, 0));
    assert!(stats.top_degree_patterns.is_empty());
}

#[test]
fn only_the_most_frequent_patterns_are_listed() {
    let mut nodes = Vec::new();
    for kind in 0..25u32 {
        for _ in 0..=kind {
            nodes.push(NodeDegrees {
                in_degree: kind,
                out_degree: 1,
                neighbors: 2,
                self_loop: false,
            });
        }
    }
    let stats = summarize(&nodes, 9);
    let counts: Vec<u64> = stats.top_degree_patterns.iter().map(|p| p.count).collect();
    assert_eq!(counts, (6..=25).rev().collect::<Vec<u64>>());
    assert_eq!(stats.top_degree_patterns[0].in_degree, 24);
    assert_eq!(stats.top_neighbor_patterns[19].count, 6);
    assert_eq!(top_keys(&vec![7, 8, 7]), vec![(0, 2), (1, 1)]);
}
