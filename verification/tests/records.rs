use solari::transfers::records::{
    read_all, write_all, write_u32, write_u64, ByteOrder, CompactGraphEdgeRecord,
    CompactMetadataRecord, CompactPointRecord, PointRecord, RawGraphEdgeRecord, RawMetadataRecord,
    Record, RecordError,
};

const ORDERS: [ByteOrder; 2] = [ByteOrder::Little, ByteOrder::Big];

#[test]
fn numbers_are_stored_in_either_order() {
    let mut little = Vec::new();
    write_u32(ByteOrder::Little, 0x0102_0304, &mut little);
    write_u64(ByteOrder::Little, 0x0102_0304_0506_0708, &mut little);
    let mut expected = 0x0102_0304u32.to_le_bytes().to_vec();
    expected.extend(0x0102_0304_0506_0708u64.to_le_bytes());
    assert_eq!(little, expected);
    let mut big = Vec::new();
    write_u32(ByteOrder::Big, 0x0102_0304, &mut big);
    write_u64(ByteOrder::Big, 0x0102_0304_0506_0708, &mut big);
    let mut expected = 0x0102_0304u32.to_be_bytes().to_vec();
    expected.extend(0x0102_0304_0506_0708u64.to_be_bytes());
    assert_eq!(big, expected);
}

#[test]
fn graph_edges_are_read_back() {
    for order in ORDERS {
        let edges = vec![
            RawGraphEdgeRecord {
                from_raw: 1,
                to_raw: u32::MAX,
                weight_mm: 0xdead_beef,
            },
            RawGraphEdgeRecord {
                from_raw: 0x0102_0304,
                to_raw: 5,
                weight_mm: 6,
            },
        ];
        let mut bytes = Vec::new();
        write_all::<RawGraphEdgeRecord>(order, &edges, &mut bytes);
        assert_eq!(bytes.len(), 24);
        assert_eq!(read_all::<RawGraphEdgeRecord>(order, &bytes), Ok(edges));
        let compact = vec![CompactGraphEdgeRecord {
            from: 7,
            to: 8,
            weight_mm: 9,
        }];
        let mut bytes = Vec::new();
        write_all::<CompactGraphEdgeRecord>(order, &compact, &mut bytes);
        assert_eq!(read_all::<CompactGraphEdgeRecord>(order, &bytes), Ok(compact));
    }
}

#[test]
fn points_are_read_back() {
    for order in ORDERS {
        let points = vec![PointRecord {
            cell: 0x8899_aabb_ccdd_eeff,
            raw_node: 3,
        }];
        let mut bytes = Vec::new();
        write_all::<PointRecord>(order, &points, &mut bytes);
        assert_eq!(bytes.len(), 12);
        assert_eq!(read_all::<PointRecord>(order, &bytes), Ok(points));
        let compact = vec![CompactPointRecord {
            cell: 1,
            compact_node: 2,
        }];
        let mut bytes = Vec::new();
        write_all::<CompactPointRecord>(order, &compact, &mut bytes);
        assert_eq!(read_all::<CompactPointRecord>(order, &bytes), Ok(compact));
    }
}

#[test]
fn metadata_is_read_back() {
    for order in ORDERS {
        let raw = vec![RawMetadataRecord {
            from_raw: 1,
            to_raw: 2,
            length_bits: 12.5f64.to_bits(),
            shape_offset: u64::MAX,
            shape_len: 4,
        }];
        let mut bytes = Vec::new();
        write_all::<RawMetadataRecord>(order, &raw, &mut bytes);
        assert_eq!(bytes.len(), 28);
        assert_eq!(read_all::<RawMetadataRecord>(order, &bytes), Ok(raw));
        let compact = vec![CompactMetadataRecord {
            from: 1,
            to: 2,
            length_bits: 3,
            shape_offset: 4,
            shape_len: 5,
        }];
        let mut bytes = Vec::new();
        write_all::<CompactMetadataRecord>(order, &compact, &mut bytes);
        assert_eq!(read_all::<CompactMetadataRecord>(order, &bytes), Ok(compact));
    }
}

#[test]
fn records_that_end_early_are_refused() {
    let order = ByteOrder::Little;
    let bytes = [0u8; 28];
    assert_eq!(RawGraphEdgeRecord::read_from(order, &bytes[..0], 0), Ok(None));
    assert_eq!(
        RawGraphEdgeRecord::read_from(order, &bytes[..3], 0),
        Err(RecordError::InsideField)
    );
    assert_eq!(
        RawGraphEdgeRecord::read_from(order, &bytes[..4], 0),
        Err(RecordError::Truncated)
    );
    assert_eq!(
        RawGraphEdgeRecord::read_from(order, &bytes[..7], 0),
        Err(RecordError::InsideField)
    );
    assert_eq!(
        RawGraphEdgeRecord::read_from(order, &bytes[..8], 0),
        Err(RecordError::Truncated)
    );
    assert!(RawGraphEdgeRecord::read_from(order, &bytes[..12], 0).is_ok());
    assert_eq!(PointRecord::read_from(order, &bytes[..8], 0), Err(RecordError::Truncated));
    assert_eq!(PointRecord::read_from(order, &bytes[..11], 0), Err(RecordError::InsideField));
    for left in 1..28 {
        let expected = if [4, 8, 16, 24].contains(&left) {
            RecordError::Truncated
        } else {
            RecordError::InsideField
        };
        assert_eq!(RawMetadataRecord::read_from(order, &bytes[..left], 0), Err(expected));
        assert_eq!(read_all::<CompactMetadataRecord>(order, &bytes[..left]), Err(expected));
    }
    assert_eq!(
        read_all::<CompactGraphEdgeRecord>(order, &bytes[..16]),
        Err(RecordError::Truncated)
    );
    assert_eq!(read_all::<CompactPointRecord>(order, &bytes[..24]).map(|r| r.len()), Ok(2));
}
