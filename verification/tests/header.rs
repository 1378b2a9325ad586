use anka::metric::MetricKind;
use crc32fast::hash as crc32;
use anka::store::error::SnapshotError;
use anka::store::header::{
    HeaderFlags, Section, SnapshotHeader, FORMAT_VERSION, HEADER_BYTES, HEADER_CHECKSUM_BYTES,
    SECTION_COUNT,
};
use anka::vector_store::MAX_DIM;

fn sample() -> SnapshotHeader {
    SnapshotHeader {
        dim: 128,
        count: 1_000_000,
        live_count: 999_999,
        entry_point: Some(42),
        rng_seed: 0xDEAD_BEEF_CAFE_F00D,
        levels_drawn: 1_000_000,
        wal_seq: 7,
        m: 16,
        max_degree0: 32,
        ef_construction: 200,
        metric: MetricKind::L2Squared,
        max_layer: 4,
        section_offsets: [
            0,
            512_000_000,
            512_001_000,
            700_000_000,
            700_000_100,
            700_000_200,
        ],
        body_len: 700_000_300,
        body_crc32: 0x1234_5678,
        flags: HeaderFlags {
            heuristic: true,
            keep_pruned: true,
        },
    }
}

#[test]
fn the_header_is_exactly_128_bytes() {
    assert_eq!(sample().encode().len(), HEADER_BYTES);
    assert_eq!(HEADER_BYTES, 128);
}

#[test]
fn round_trips() {
    let header = sample();
    assert_eq!(SnapshotHeader::decode(&header.encode()).unwrap(), header);
}

#[test]
fn an_empty_collection_round_trips() {
    let header = SnapshotHeader {
        count: 0,
        live_count: 0,
        entry_point: None,
        max_layer: 0,
        levels_drawn: 0,
        section_offsets: [0; SECTION_COUNT],
        body_len: 0,
        ..sample()
    };
    let decoded = SnapshotHeader::decode(&header.encode()).unwrap();
    assert_eq!(decoded, header);
    assert_eq!(decoded.entry_point, None);
}

#[test]
fn key_fields_sit_at_their_documented_offsets() {
    let bytes = sample().encode();
    assert_eq!(&bytes[0..4], b"ANKA");
    assert_eq!(
        u32::from_le_bytes(bytes[4..8].try_into().unwrap()),
        FORMAT_VERSION
    );
    assert_eq!(u32::from_le_bytes(bytes[8..12].try_into().unwrap()), 128);
    assert_eq!(
        u64::from_le_bytes(bytes[24..32].try_into().unwrap()),
        0xDEAD_BEEF_CAFE_F00D
    );
    // Checksum is the last four bytes.
    assert_eq!(
        u32::from_le_bytes(bytes[124..128].try_into().unwrap()),
        crc32(&bytes[..124])
    );
}

#[test]
fn every_byte_before_the_checksum_is_protected() {
    let original = sample().encode();
    for index in 0..HEADER_CHECKSUM_BYTES {
        let mut corrupted = original;
        corrupted[index] ^= 0x01;
        let result = SnapshotHeader::decode(&corrupted);
        assert!(
            result.is_err(),
            "flipping byte {index} produced a header that decoded cleanly"
        );
    }
}

#[test]
fn a_short_buffer_is_rejected() {
    let bytes = sample().encode();
    for length in [0usize, 1, 4, 64, 127] {
        assert!(matches!(
            SnapshotHeader::decode(&bytes[..length]),
            Err(SnapshotError::TooShort { .. })
        ));
    }
}

#[test]
fn a_foreign_file_is_rejected_before_anything_else() {
    let mut bytes = sample().encode();
    bytes[..4].copy_from_slice(b"XXXX");
    assert!(matches!(
        SnapshotHeader::decode(&bytes),
        Err(SnapshotError::BadMagic { .. })
    ));
}

#[test]
fn an_unsupported_version_is_rejected() {
    let mut header = sample().encode();
    header[4..8].copy_from_slice(&99u32.to_le_bytes());
    // Re-checksum, so the version check is what fires rather than the CRC.
    let checksum = crc32(&header[..HEADER_CHECKSUM_BYTES]);
    header[HEADER_CHECKSUM_BYTES..].copy_from_slice(&checksum.to_le_bytes());

    assert!(matches!(
        SnapshotHeader::decode(&header),
        Err(SnapshotError::UnsupportedVersion {
            found: 99,
            supported: FORMAT_VERSION
        })
    ));
}

fn encode_with(mutate: impl FnOnce(&mut SnapshotHeader)) -> [u8; HEADER_BYTES] {
    let mut header = sample();
    mutate(&mut header);
    header.encode()
}

#[test]
fn a_zero_or_absurd_dimension_is_rejected() {
    assert!(matches!(
        SnapshotHeader::decode(&encode_with(|h| h.dim = 0)),
        Err(SnapshotError::InvalidDim { dim: 0 })
    ));
    assert!(matches!(
        SnapshotHeader::decode(&encode_with(|h| h.dim = MAX_DIM as u32 + 1)),
        Err(SnapshotError::InvalidDim { .. })
    ));
}

#[test]
fn an_entry_point_outside_the_collection_is_rejected() {
    assert!(matches!(
        SnapshotHeader::decode(&encode_with(|h| h.entry_point = Some(2_000_000))),
        Err(SnapshotError::EntryPointOutOfRange { .. })
    ));
}

#[test]
fn a_populated_snapshot_without_an_entry_point_is_rejected() {
    assert!(matches!(
        SnapshotHeader::decode(&encode_with(|h| h.entry_point = None)),
        Err(SnapshotError::MissingEntryPoint { .. })
    ));
}

#[test]
fn more_live_vectors_than_total_is_rejected() {
    assert!(matches!(
        SnapshotHeader::decode(&encode_with(|h| h.live_count = h.count + 1)),
        Err(SnapshotError::LiveCountAboveCount { .. })
    ));
}

#[test]
fn degenerate_degree_parameters_are_rejected() {
    assert!(matches!(
        SnapshotHeader::decode(&encode_with(|h| h.m = 0)),
        Err(SnapshotError::InvalidDegrees { .. })
    ));
    assert!(matches!(
        SnapshotHeader::decode(&encode_with(|h| h.max_degree0 = h.m - 1)),
        Err(SnapshotError::InvalidDegrees { .. })
    ));
    assert!(matches!(
        SnapshotHeader::decode(&encode_with(|h| h.ef_construction = 0)),
        Err(SnapshotError::InvalidEfConstruction)
    ));
}

#[test]
fn malformed_section_offsets_are_rejected() {
    assert!(matches!(
        SnapshotHeader::decode(&encode_with(|h| h.section_offsets[2] = 1)),
        Err(SnapshotError::SectionsOutOfOrder { .. })
    ));
    assert!(matches!(
        SnapshotHeader::decode(&encode_with(|h| h.section_offsets[5] = h.body_len + 1)),
        Err(SnapshotError::SectionOutOfRange { .. })
    ));
}

#[test]
fn an_unknown_metric_tag_is_rejected() {
    let mut bytes = sample().encode();
    bytes[54] = 200;
    let checksum = crc32(&bytes[..HEADER_CHECKSUM_BYTES]);
    bytes[HEADER_CHECKSUM_BYTES..].copy_from_slice(&checksum.to_le_bytes());

    assert!(matches!(
        SnapshotHeader::decode(&bytes),
        Err(SnapshotError::UnknownMetric { tag: 200 })
    ));
}

#[test]
fn unknown_flag_bits_are_rejected_rather_than_ignored() {
    let mut bytes = sample().encode();
    bytes[116..120].copy_from_slice(&(1u32 << 7).to_le_bytes());
    let checksum = crc32(&bytes[..HEADER_CHECKSUM_BYTES]);
    bytes[HEADER_CHECKSUM_BYTES..].copy_from_slice(&checksum.to_le_bytes());

    assert!(matches!(
        SnapshotHeader::decode(&bytes),
        Err(SnapshotError::UnknownFlags { .. })
    ));
}

#[test]
fn flags_round_trip_in_every_combination() {
    for heuristic in [false, true] {
        for keep_pruned in [false, true] {
            let flags = HeaderFlags {
                heuristic,
                keep_pruned,
            };
            let bytes = encode_with(|h| h.flags = flags);
            assert_eq!(SnapshotHeader::decode(&bytes).unwrap().flags, flags);
        }
    }
}

#[test]
fn section_ranges_tile_the_body_without_gaps() {
    let header = sample();
    let mut previous_end = 0usize;
    for section in Section::ALL {
        let range = header.section_range(section);
        assert_eq!(range.start, previous_end, "gap before {}", section.name());
        assert!(range.end >= range.start);
        previous_end = range.end;
    }
    assert_eq!(previous_end, header.body_len as usize);
}

#[test]
fn the_body_starts_after_the_header() {
    assert_eq!(SnapshotHeader::body_start(), HEADER_BYTES);
}

#[test]
fn a_changed_byte_is_told_by_where_it_is() {
    let original = sample().encode();
    for index in 0..HEADER_BYTES {
        for byte in [0x00, 0x5A, 0xFF] {
            if original[index] == byte {
                continue;
            }
            let mut corrupted = original;
            corrupted[index] = byte;
            let result = SnapshotHeader::decode(&corrupted);
            if index < 4 {
                let found = [corrupted[0], corrupted[1], corrupted[2], corrupted[3]];
                assert_eq!(result, Err(SnapshotError::BadMagic { found }));
            } else {
                assert!(
                    matches!(
                        result,
                        Err(SnapshotError::HeaderChecksumMismatch { stored, computed })
                            if stored != computed
                    ),
                    "byte {index}"
                );
            }
        }
    }
}
