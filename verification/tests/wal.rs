use anka::store::error::WalError;
use anka::store::wal::{
    read_header, read_record, Framed, Interval, Next, Record, SyncPolicy, Torn, WalWriter,
    FORMAT_VERSION, FRAME_BYTES, HEADER_BYTES, MAX_RECORD_BYTES, PREFIX_BYTES,
};

fn bits(values: &[f32]) -> Vec<u32> {
    values.iter().map(|x| x.to_bits()).collect()
}

const DIM: usize = 4;

fn insert(id: u64, level: u8) -> Record {
    Record::Insert {
        external_id: id,
        level,
        vector: (0..DIM).map(|i| (id as f32 + i as f32 * 0.25).to_bits()).collect(),
        metadata: Vec::new(),
    }
}

/// A log file in memory.
struct Log {
    writer: WalWriter,
    bytes: Vec<u8>,
}

impl Log {
    fn create(policy: SyncPolicy, first_seq: u64) -> Log {
        let (writer, bytes) = WalWriter::create(policy, first_seq);
        Log { writer, bytes }
    }

    fn reopen(mut bytes: Vec<u8>, policy: SyncPolicy, next_seq: u64, valid_bytes: u64) -> Log {
        bytes.truncate(valid_bytes as usize);
        Log {
            writer: WalWriter::reopen(policy, next_seq, valid_bytes),
            bytes,
        }
    }

    fn append(&mut self, record: &Record) -> Result<u64, WalError> {
        let bytes = self.writer.prepare(record)?;
        self.bytes.extend_from_slice(&bytes);
        let appended = self.writer.append(bytes.len());
        if appended.sync {
            self.writer.sync();
        }
        Ok(appended.seq)
    }
}

/// The bytes of a fresh log that holds `records`.
fn log_with(records: &[Record], policy: SyncPolicy) -> Vec<u8> {
    let mut log = Log::create(policy, 1);
    for record in records {
        log.append(record).unwrap();
    }
    log.writer.sync();
    assert_eq!(log.bytes.len() as u64, log.writer.len());
    log.bytes
}

fn read_all(bytes: &[u8]) -> (Vec<Framed>, Option<Torn>, usize) {
    let mut offset = read_header(bytes).unwrap();
    let mut records = Vec::new();
    loop {
        match read_record(&bytes[offset..], DIM).unwrap() {
            Next::Record(framed) => {
                offset += framed.bytes;
                records.push(framed);
            }
            Next::Torn(torn) => return (records, Some(torn), offset),
        }
    }
}

#[test]
fn every_record_kind_round_trips() {
    let written = vec![
        insert(7, 3),
        Record::Delete { external_id: 7 },
        Record::Checkpoint {
            snapshot_wal_seq: 42,
        },
        Record::Insert {
            external_id: 9,
            level: 0,
            vector: bits(&[1.0, -2.5, 0.0, f32::MIN_POSITIVE]),
            metadata: b"{\"colour\":\"red\"}".to_vec(),
        },
    ];
    let bytes = log_with(&written, SyncPolicy::Always);

    let (read, torn, _) = read_all(&bytes);
    assert_eq!(read.len(), written.len());
    for (index, framed) in read.iter().enumerate() {
        assert_eq!(framed.seq, index as u64 + 1, "sequence numbers are dense");
        assert_eq!(framed.record, written[index]);
    }
    // The log ends where the records do, with nothing left to frame.
    assert_eq!(torn, Some(Torn::ShortFrame { remaining: 0 }));
}

#[test]
fn the_header_is_validated() {
    let mut bytes = log_with(&[insert(1, 0)], SyncPolicy::Always);

    assert!(matches!(
        read_header(&bytes[..HEADER_BYTES - 1]),
        Err(WalError::TooShort { .. })
    ));

    let mut foreign = bytes.clone();
    foreign[..4].copy_from_slice(b"XXXX");
    assert!(matches!(
        read_header(&foreign),
        Err(WalError::BadMagic { .. })
    ));

    bytes[4..8].copy_from_slice(&(FORMAT_VERSION + 1).to_le_bytes());
    assert!(matches!(
        read_header(&bytes),
        Err(WalError::UnsupportedVersion { .. })
    ));
}

#[test]
fn a_truncated_length_field_ends_the_log_cleanly() {
    let bytes = log_with(&[insert(1, 0), insert(2, 1)], SyncPolicy::Always);
    let first = read_all(&bytes).0[0].bytes;

    // Zero, one, ... seven bytes of the second record's framing survived.
    for kept in 0..FRAME_BYTES {
        let end = HEADER_BYTES + first + kept;
        let (records, torn, offset) = read_all(&bytes[..end]);
        assert_eq!(records.len(), 1, "kept {kept} framing bytes");
        assert_eq!(torn, Some(Torn::ShortFrame { remaining: kept }));
        assert_eq!(offset, HEADER_BYTES + first);
    }
}

#[test]
fn an_impossible_length_ends_the_log_cleanly() {
    let mut bytes = log_with(&[insert(1, 0), insert(2, 1)], SyncPolicy::Always);
    let first = read_all(&bytes).0[0].bytes;
    let len_at = HEADER_BYTES + first;

    for len in [0u32, 1, PREFIX_BYTES as u32 - 1, u32::MAX] {
        bytes[len_at..len_at + 4].copy_from_slice(&len.to_le_bytes());
        let (records, torn, _) = read_all(&bytes);
        assert_eq!(records.len(), 1);
        assert_eq!(
            torn,
            Some(Torn::ImpossibleLength { len: len as usize }),
            "len {len}"
        );
    }
}

#[test]
fn a_truncated_payload_ends_the_log_cleanly() {
    let bytes = log_with(&[insert(1, 0), insert(2, 1)], SyncPolicy::Always);
    let (all, _, _) = read_all(&bytes);
    let (first, second) = (all[0].bytes, all[1].bytes);
    let payload = second - FRAME_BYTES;

    for kept in 0..payload {
        let end = HEADER_BYTES + first + FRAME_BYTES + kept;
        let (records, torn, offset) = read_all(&bytes[..end]);
        assert_eq!(records.len(), 1, "kept {kept} payload bytes");
        assert_eq!(
            torn,
            Some(Torn::ShortPayload {
                needed: payload,
                remaining: kept
            })
        );
        assert_eq!(offset, HEADER_BYTES + first);
    }
}

#[test]
fn a_damaged_record_ends_the_log_cleanly() {
    let good = log_with(&[insert(1, 0), insert(2, 1)], SyncPolicy::Always);
    let (all, _, _) = read_all(&good);
    let start = HEADER_BYTES + all[0].bytes;

    // Every byte of the second record, framing included, has to be covered.
    for byte in start..good.len() {
        let mut bytes = good.clone();
        bytes[byte] ^= 0x01;
        let (records, torn, offset) = read_all(&bytes);
        assert!(
            records.len() <= 1,
            "a flipped bit at {byte} was accepted into record {}",
            records.len()
        );
        assert!(torn.is_some(), "a flipped bit at {byte} was not noticed");
        assert_eq!(offset, start, "recovery would resume at the wrong offset");
    }
}

#[test]
fn damage_in_the_middle_truncates_everything_after_it() {
    let records: Vec<Record> = (1..=5).map(|i| insert(i, 0)).collect();
    let good = log_with(&records, SyncPolicy::Always);
    let (all, _, _) = read_all(&good);

    let third = HEADER_BYTES + all[0].bytes + all[1].bytes;
    let mut bytes = good.clone();
    bytes[third + FRAME_BYTES + 2] ^= 0xFF;

    let (read, torn, offset) = read_all(&bytes);
    assert_eq!(read.len(), 2);
    assert!(matches!(torn, Some(Torn::BadChecksum { .. })));
    assert_eq!(offset, third);
}

#[test]
fn an_unknown_operation_is_an_error_rather_than_a_torn_tail() {
    let mut bytes = log_with(&[insert(1, 0)], SyncPolicy::Always);

    // Rewrite the op byte and repair the checksum, so the record is intact and unreadable.
    let body = HEADER_BYTES + FRAME_BYTES;
    bytes[body + 8] = 0x7F;
    let len =
        u32::from_le_bytes(bytes[HEADER_BYTES..HEADER_BYTES + 4].try_into().unwrap()) as usize;
    let checksum = crc32fast::hash(&bytes[body..body + len]);
    bytes[HEADER_BYTES + 4..HEADER_BYTES + 8].copy_from_slice(&checksum.to_le_bytes());

    assert!(matches!(
        read_record(&bytes[HEADER_BYTES..], DIM),
        Err(WalError::UnknownOp { seq: 1, op: 0x7F })
    ));
}

#[test]
fn a_record_read_at_the_wrong_dimension_is_an_error() {
    let bytes = log_with(&[insert(1, 0)], SyncPolicy::Always);

    assert!(matches!(
        read_record(&bytes[HEADER_BYTES..], DIM + 1),
        Err(WalError::MalformedPayload { seq: 1, .. })
    ));
    assert!(matches!(
        read_record(&bytes[HEADER_BYTES..], 0),
        Err(WalError::MalformedPayload { seq: 1, .. })
    ));
    // Reading narrower leaves bytes over, which the metadata length check catches.
    assert!(matches!(
        read_record(&bytes[HEADER_BYTES..], DIM - 1),
        Err(WalError::MalformedPayload { seq: 1, .. })
    ));
}

#[test]
fn sequence_numbers_continue_across_a_reopen() {
    let bytes = log_with(&[insert(1, 0), insert(2, 0)], SyncPolicy::Always);
    let valid = bytes.len() as u64;

    let mut log = Log::reopen(bytes, SyncPolicy::Always, 3, valid);
    assert_eq!(log.writer.next_seq(), 3);
    assert_eq!(log.append(&insert(3, 0)).unwrap(), 3);

    let (read, _, _) = read_all(&log.bytes);
    assert_eq!(
        read.iter().map(|f| f.seq).collect::<Vec<_>>(),
        vec![1, 2, 3]
    );
}

#[test]
fn reopening_discards_the_torn_tail() {
    let bytes = log_with(&[insert(1, 0), insert(2, 0)], SyncPolicy::Always);
    let (all, _, _) = read_all(&bytes);
    let after_first = (HEADER_BYTES + all[0].bytes) as u64;

    // Simulate a crash that left half of the second record behind.
    let mut log = Log::reopen(bytes, SyncPolicy::Always, 2, after_first);
    assert_eq!(log.writer.len(), after_first);
    log.append(&insert(20, 0)).unwrap();

    let (read, torn, _) = read_all(&log.bytes);
    assert_eq!(read.len(), 2);
    assert_eq!(read[1].seq, 2);
    assert_eq!(
        read[1].record,
        insert(20, 0),
        "the replacement record, not the torn one"
    );
    assert_eq!(torn, Some(Torn::ShortFrame { remaining: 0 }));
}

#[test]
fn the_sync_policy_does_not_change_the_bytes() {
    let records: Vec<Record> = (1..=4).map(|i| insert(i, i as u8 % 3)).collect();
    let always = log_with(&records, SyncPolicy::Always);
    let every = log_with(&records, SyncPolicy::EveryN(Interval::new(2).unwrap()));
    let never = log_with(&records, SyncPolicy::Never);

    assert_eq!(always, every);
    assert_eq!(always, never);
}

#[test]
fn an_oversized_record_is_refused() {
    let mut log = Log::create(SyncPolicy::Never, 1);

    let huge = Record::Insert {
        external_id: 1,
        level: 0,
        vector: vec![0; DIM],
        metadata: vec![0u8; MAX_RECORD_BYTES],
    };
    assert!(matches!(
        log.append(&huge),
        Err(WalError::RecordTooLarge { .. })
    ));
    // Refused before anything reached the file, so the log is still just its header.
    assert!(log.writer.is_empty());
    assert_eq!(log.writer.next_seq(), 1);
    assert_eq!(log.bytes.len(), HEADER_BYTES);
}

#[test]
fn an_empty_log_reads_as_empty() {
    let bytes = log_with(&[], SyncPolicy::Always);
    assert_eq!(bytes.len(), HEADER_BYTES);

    let (records, torn, offset) = read_all(&bytes);
    assert!(records.is_empty());
    assert_eq!(torn, Some(Torn::ShortFrame { remaining: 0 }));
    assert_eq!(offset, HEADER_BYTES);
}

#[test]
fn a_record_is_its_length_its_checksum_and_its_body() {
    let bytes = log_with(&[Record::Delete { external_id: 0x0102_0304_0506_0708 }], SyncPolicy::Never);
    let record = &bytes[HEADER_BYTES..];
    assert_eq!(record[..4], [17, 0, 0, 0]);
    assert_eq!(record[4..8], crc32fast::hash(&record[8..]).to_le_bytes());
    assert_eq!(record[8..16], [1, 0, 0, 0, 0, 0, 0, 0]);
    assert_eq!(record[17..], [8, 7, 6, 5, 4, 3, 2, 1]);
    assert_eq!(record.len(), 25);
    assert_eq!(Record::Delete { external_id: 1 }.encoded_len(), 25);
}

#[test]
fn syncing_follows_the_policy() {
    let due = |policy: SyncPolicy| -> Vec<bool> {
        let (mut writer, _) = WalWriter::create(policy, 1);
        (0..6)
            .map(|i| {
                let appended = writer.append(25);
                assert_eq!(appended.seq, i + 1);
                if appended.sync {
                    writer.sync();
                }
                appended.sync
            })
            .collect()
    };
    assert_eq!(due(SyncPolicy::Always), vec![true; 6]);
    assert_eq!(due(SyncPolicy::Never), vec![false; 6]);
    assert_eq!(due(SyncPolicy::EveryN(Interval::new(3).unwrap())), vec![false, false, true, false, false, true]);
}

#[test]
fn an_interval_has_at_least_one_record() {
    assert_eq!(Interval::new(0), None);
    assert_eq!(Interval::new(1).unwrap().get(), 1);
    assert_eq!(Interval::new(u32::MAX).unwrap().get(), u32::MAX);
}

#[test]
fn a_sync_is_owed_until_it_is_noted() {
    let (mut writer, _) = WalWriter::create(SyncPolicy::EveryN(Interval::new(2).unwrap()), 1);
    assert!(!writer.append(25).sync);
    assert!(!writer.sync_owed());
    assert!(writer.append(25).sync);
    assert!(writer.sync_owed());
    writer.sync();
    assert!(!writer.sync_owed());
}

#[test]
fn a_changed_byte_of_a_record_tears_the_log() {
    let record = insert(7, 1);
    let (writer, _) = WalWriter::create(SyncPolicy::Never, 1);
    let bytes = writer.prepare(&record).unwrap();
    for at in 4..bytes.len() {
        let mut damaged = bytes.clone();
        damaged[at] ^= 0x10;
        assert!(
            matches!(
                read_record(&damaged, DIM),
                Ok(Next::Torn(Torn::BadChecksum { stored, computed })) if stored != computed
            ),
            "byte {at}"
        );
    }
}

#[test]
fn the_checksum_of_a_record_is_the_common_crc32() {
    // The body of record 0x34333231 with operation 0x39: a checksum is looked at before the
    // operation is, and this one is the known value of these nine bytes.
    let mut framed = Vec::new();
    framed.extend_from_slice(&9u32.to_le_bytes());
    framed.extend_from_slice(&0xCBF4_3926u32.to_le_bytes());
    framed.extend_from_slice(b"123456789");
    assert_eq!(
        read_record(&framed, DIM),
        Err(WalError::UnknownOp { seq: u64::from_le_bytes(*b"12345678"), op: b'9' })
    );
    framed[4] ^= 1;
    assert_eq!(
        read_record(&framed, DIM),
        Ok(Next::Torn(Torn::BadChecksum { stored: 0xCBF4_3927, computed: 0xCBF4_3926 }))
    );
}

/// The checksum, one bit at a time.
fn bitwise_crc32(bytes: &[u8]) -> u32 {
    let mut state = 0xFFFF_FFFFu32;
    for byte in bytes {
        state ^= u32::from(*byte);
        for _ in 0..8 {
            state = if state & 1 == 1 { (state >> 1) ^ 0xEDB8_8320 } else { state >> 1 };
        }
    }
    !state
}

#[test]
fn records_carry_the_bitwise_checksum_of_their_body() {
    assert_eq!(bitwise_crc32(b"123456789"), 0xCBF4_3926);
    let (writer, _) = WalWriter::create(SyncPolicy::Never, 77);
    for id in 0..40 {
        let bytes = writer.prepare(&insert(id * 1_000_003, id as u8 % 5)).unwrap();
        let stored = u32::from_le_bytes([bytes[4], bytes[5], bytes[6], bytes[7]]);
        assert_eq!(stored, bitwise_crc32(&bytes[8..]), "record of {id}");
    }
}
