use anka::error::VectorError;
use anka::hnsw::index::HnswIndex;
use anka::hnsw::params::HnswParams;
use anka::hnsw::select::SelectionPolicy;
use anka::hnsw::stats::DistanceCounter;
use anka::metric::{Metric, MetricKind};
use anka::store::error::SnapshotError;
use anka::store::header::{Section, SnapshotHeader, HEADER_BYTES, SECTION_ALIGN};
use anka::store::snapshot::{self, load, read, wal_seq, Verify};

/// The bits of a list of numbers.
fn bits(values: &[f32]) -> Vec<u32> {
    values.iter().map(|x| x.to_bits()).collect()
}

fn l2(a: &[u32], b: &[u32]) -> u32 {
    let mut sum = 0.0f64;
    for (x, y) in a.iter().zip(b) {
        let d = f64::from(f32::from_bits(*x)) - f64::from(f32::from_bits(*y));
        sum += d * d;
    }
    (sum as f32).to_bits()
}

struct L2Squared;

impl Metric for L2Squared {
    const NAME: &'static str = "l2squared";

    fn distance_scalar(a: &[u32], b: &[u32]) -> u32 {
        l2(a, b)
    }

    fn distance(a: &[u32], b: &[u32]) -> u32 {
        l2(a, b)
    }

    fn preprocess(_vector: &mut [u32]) -> Result<(), VectorError> {
        Ok(())
    }
}

/// Turns a uniformly distributed word into a level with `P(level >= l) = m^-l`.
fn scale_for(m: usize) -> impl Fn(u64) -> usize {
    let multiplier = if m > 1 { 1.0 / (m as f64).ln() } else { 0.0 };
    move |word: u64| {
        let uniform = 1.0 - (word >> 11) as f64 / (1u64 << 53) as f64;
        (-uniform.ln() * multiplier).floor() as usize
    }
}

/// Deterministic points, so that a failure is reproducible from its seed.
fn points(seed: u64, count: usize, dim: usize) -> Vec<f32> {
    let mut state = seed | 1;
    (0..count * dim)
        .map(|_| {
            state = state
                .wrapping_mul(6364136223846793005)
                .wrapping_add(1442695040888963407);
            ((state >> 11) as f64 / (1u64 << 53) as f64) as f32 * 100.0
        })
        .collect()
}

fn build(params: HnswParams, data: &[f32], dim: usize) -> HnswIndex<'static> {
    let count = data.len() / dim;
    let mut index = HnswIndex::with_capacity(dim, MetricKind::L2Squared, params, count).unwrap();
    let mut searcher = index.searcher();
    let mut counter = DistanceCounter::new();
    let scale = scale_for(params.m());
    for vector in data.chunks_exact(dim) {
        index
            .insert::<L2Squared, _>(&mut searcher, &bits(vector), &mut counter, &scale)
            .unwrap();
    }
    index
}

/// The same bytes as whole little-endian words.
fn words(bytes: &[u8]) -> Vec<u32> {
    bytes
        .chunks_exact(4)
        .map(|four| u32::from_le_bytes([four[0], four[1], four[2], four[3]]))
        .collect()
}

fn assert_same_graph(a: &HnswIndex<'_>, b: &HnswIndex<'_>) {
    assert_eq!(a.len(), b.len());
    assert_eq!(a.max_layer(), b.max_layer());
    for layer in 0..=a.max_layer() {
        let (left, right) = (&a.layers()[layer], &b.layers()[layer]);
        assert_eq!(
            left.nodes(),
            right.nodes(),
            "layer {layer} holds different nodes"
        );
        for node in left.nodes() {
            assert_eq!(
                left.neighbors(node),
                right.neighbors(node),
                "layer {layer}, node {node}"
            );
        }
    }
    for node in 0..a.len() as u32 {
        assert_eq!(a.level_of(node), b.level_of(node), "level of node {node}");
    }
}

fn assert_same_answers(a: &HnswIndex<'_>, b: &HnswIndex<'_>, queries: &[f32], dim: usize) {
    let mut sa = a.searcher();
    let mut sb = b.searcher();
    let mut counter = DistanceCounter::new();
    for query in queries.chunks_exact(dim) {
        let left = a
            .search::<L2Squared>(&mut sa, &bits(query), 10, 64, &mut counter)
            .unwrap();
        let right = b
            .search::<L2Squared>(&mut sb, &bits(query), 10, 64, &mut counter)
            .unwrap();
        assert_eq!(left, right);
    }
}

#[test]
fn an_index_survives_a_round_trip_through_a_file() {
    let dim = 8;
    let data = points(1, 2_000, dim);
    let queries = points(2, 60, dim);
    let original = build(HnswParams::default(), &data, dim);

    let file = snapshot::write(&original, 0).unwrap();
    let file_words = words(&file);

    let loaded = load(&file, &file_words, Verify::Body).expect("load");
    loaded.validate().expect("a loaded graph is valid");

    assert_eq!(loaded.len(), original.len());
    assert_eq!(loaded.dim(), original.dim());
    assert_eq!(loaded.metric(), original.metric());
    assert_eq!(loaded.max_layer(), original.max_layer());
    assert_eq!(loaded.entry_point(), original.entry_point());
    assert_eq!(loaded.levels_drawn(), original.levels_drawn());
    assert_eq!(loaded.params(), original.params());
    assert_same_graph(&original, &loaded);
    assert_same_answers(&original, &loaded, &queries, dim);
}

#[test]
fn loaded_vectors_are_mapped_not_copied() {
    let dim = 4;
    let data = points(3, 500, dim);
    let index = build(HnswParams::default(), &data, dim);

    let file = snapshot::write(&index, 0).unwrap();
    let file_words = words(&file);
    let loaded = load(&file, &file_words, Verify::Header).unwrap();

    assert!(loaded.vectors().is_mapped());
    assert_eq!(loaded.vectors().mapped_count(), data.len() / dim);
    assert_eq!(loaded.vectors().resident_bytes(), 0);
    // Same bytes, read through the mapping.
    for position in 0..loaded.len() {
        assert_eq!(
            loaded.vectors().get(position),
            bits(&data[position * dim..(position + 1) * dim])
        );
    }
}

#[test]
fn reading_and_mapping_produce_the_same_index() {
    let dim = 8;
    let data = points(17, 1_000, dim);
    let queries = points(18, 40, dim);
    let original = build(HnswParams::default(), &data, dim);

    let file = snapshot::write(&original, 0).unwrap();
    let file_words = words(&file);

    let mapped = load(&file, &file_words, Verify::Body).unwrap();
    let owned = read(&file, Verify::Body).unwrap();

    assert!(mapped.vectors().is_mapped());
    assert!(!owned.vectors().is_mapped());
    assert_eq!(owned.vectors().resident_bytes(), data.len() * 4);

    assert_same_graph(&mapped, &owned);
    assert_same_answers(&mapped, &owned, &queries, dim);
    assert_same_answers(&original, &owned, &queries, dim);
}

#[test]
fn reading_rejects_what_mapping_rejects() {
    let dim = 4;
    let index = build(HnswParams::default(), &points(19, 100, dim), dim);
    let file = snapshot::write(&index, 0).unwrap();
    let file_words = words(&file);

    let mut file = file;
    file[HEADER_BYTES + 8] ^= 0xFF;
    assert_ne!(words(&file), file_words);

    assert!(matches!(
        read(&file, Verify::Body),
        Err(SnapshotError::BodyChecksumMismatch { .. })
    ));
}

#[test]
fn build_parameters_survive_the_round_trip() {
    let dim = 4;
    let data = points(4, 300, dim);
    let params = HnswParams::new(6)
        .unwrap()
        .with_max_degree0(20)
        .unwrap()
        .with_ef_construction(48)
        .unwrap()
        .with_seed(9_876_543_210)
        .unwrap()
        .with_selection(SelectionPolicy {
            heuristic: true,
            keep_pruned: false,
        })
        .unwrap();

    let file = snapshot::write(&build(params, &data, dim), 0).unwrap();
    let file_words = words(&file);

    assert_eq!(load(&file, &file_words, Verify::Body).unwrap().params(), &params);
}

#[test]
fn a_loaded_index_keeps_inserting_where_it_left_off() {
    let dim = 4;
    let data = points(5, 400, dim);
    let extra = points(6, 40, dim);
    let mut original = build(HnswParams::default(), &data, dim);

    let file = snapshot::write(&original, 0).unwrap();
    let file_words = words(&file);
    let mut loaded = load(&file, &file_words, Verify::Body).unwrap();

    for index in [&mut original, &mut loaded] {
        let mut searcher = index.searcher();
        let mut counter = DistanceCounter::new();
        for vector in extra.chunks_exact(dim) {
            index
                .insert::<L2Squared, _>(&mut searcher, &bits(vector), &mut counter, &scale_for(16))
                .unwrap();
        }
    }

    // The reloaded store was mapped and became hybrid on the first push.
    assert!(loaded.vectors().is_mapped());
    assert_eq!(loaded.vectors().mapped_count(), data.len() / dim);

    assert_eq!(loaded.len(), original.len());
    assert_eq!(loaded.levels_drawn(), original.levels_drawn());
    assert_same_graph(&original, &loaded);
    assert_same_answers(&original, &loaded, &points(7, 40, dim), dim);
}

#[test]
fn a_hybrid_store_writes_the_same_bytes_as_an_owned_one() {
    let dim = 4;
    let data = points(8, 300, dim);
    let extra = points(9, 30, dim);

    let first = snapshot::write(&build(HnswParams::default(), &data, dim), 0).unwrap();
    let first_words = words(&first);

    let mut reloaded = load(&first, &first_words, Verify::Body).unwrap();
    let mut searcher = reloaded.searcher();
    let mut counter = DistanceCounter::new();
    for vector in extra.chunks_exact(dim) {
        reloaded
            .insert::<L2Squared, _>(&mut searcher, &bits(vector), &mut counter, &scale_for(16))
            .unwrap();
    }
    assert!(reloaded.vectors().as_contiguous().is_none());

    let mut all = data.clone();
    all.extend_from_slice(&extra);
    let built_in_one_go = build(HnswParams::default(), &all, dim);

    assert_eq!(snapshot::write(&reloaded, 0).unwrap(), snapshot::write(&built_in_one_go, 0).unwrap());
}

#[test]
fn an_empty_index_round_trips() {
    let index = HnswIndex::new(6, MetricKind::L2Squared, HnswParams::default()).unwrap();
    let file = snapshot::write(&index, 0).unwrap();
    let file_words = words(&file);

    let loaded = load(&file, &file_words, Verify::Body).unwrap();
    assert!(loaded.is_empty());
    assert_eq!(loaded.dim(), 6);
    assert_eq!(loaded.entry_point(), None);
    loaded.validate().unwrap();
    assert_eq!(file.len() as u64, HEADER_BYTES as u64);
}

#[test]
fn the_wal_sequence_is_carried_through() {
    let dim = 4;
    let index = build(HnswParams::default(), &points(10, 50, dim), dim);
    let file = snapshot::write(&index, 4_242).unwrap();
    let file_words = words(&file);

    assert_eq!(file_words.len() * 4, file.len());
    assert_eq!(wal_seq(&file).unwrap(), 4_242);
    assert_eq!(SnapshotHeader::decode(&file).unwrap().wal_seq, 4_242);
}

#[test]
fn overwriting_replaces_the_previous_snapshot_entirely() {
    let dim = 4;

    let large = snapshot::write(
        &build(HnswParams::default(), &points(12, 800, dim), dim),
        0,
    ).unwrap()
    .len() as u64;

    let small = build(HnswParams::default(), &points(13, 40, dim), dim);
    let file = snapshot::write(&small, 0).unwrap();
    let file_words = words(&file);

    assert!((file.len() as u64) < large);
    let loaded = load(&file, &file_words, Verify::Body).unwrap();
    assert_eq!(loaded.len(), 40);
    loaded.validate().unwrap();
}

#[test]
fn a_corrupt_body_is_caught_only_when_verification_is_asked_for() {
    let dim = 4;
    let index = build(HnswParams::default(), &points(14, 200, dim), dim);
    let file = snapshot::write(&index, 0).unwrap();
    let file_words = words(&file);

    assert_eq!(file_words.len() * 4, file.len());
    let mut file = file;
    let victim = HEADER_BYTES + 32;
    file[victim] ^= 0xFF;
    let file_words = words(&file);

    assert!(matches!(
        load(&file, &file_words, Verify::Body),
        Err(SnapshotError::BodyChecksumMismatch { .. })
    ));
    // The header is intact, so a header-only load still succeeds: verifying the body on every
    // open would defeat the mapping.
    assert!(load(&file, &file_words, Verify::Header).is_ok());
}

#[test]
fn corruption_is_rejected_rather_than_crashing() {
    let dim = 4;
    let index = build(HnswParams::default(), &points(15, 100, dim), dim);
    let file = snapshot::write(&index, 0).unwrap();
    let file_words = words(&file);
    assert_eq!(file_words.len() * 4, file.len());
    let good = file;

    // Truncated, at every length that still has a header.
    for len in [0, 1, HEADER_BYTES - 1, HEADER_BYTES, HEADER_BYTES + 7] {
        let file = &good[..len.min(good.len())];
        assert!(
            load(file, &words(file), Verify::Body).is_err(),
            "a {len}-byte file was accepted"
        );
    }

    // A single flipped bit anywhere in the header, which the header checksum must catch.
    for byte in 0..HEADER_BYTES {
        let mut bytes = good.clone();
        bytes[byte] ^= 0x01;
        assert!(
            load(&bytes, &words(&bytes), Verify::Header).is_err(),
            "a flipped bit at header byte {byte} was accepted"
        );
    }

    // Foreign file.
    let file = b"this is not a snapshot, it is a text file";
    assert!(matches!(
        load(file, &words(file), Verify::Header),
        Err(SnapshotError::TooShort { .. } | SnapshotError::BadMagic { .. })
    ));
}

#[test]
fn a_header_that_disagrees_with_its_body_is_rejected() {
    let dim = 4;
    let index = build(HnswParams::default(), &points(16, 200, dim), dim);
    let file = snapshot::write(&index, 0).unwrap();
    let file_words = words(&file);
    assert_eq!(file_words.len() * 4, file.len());
    let good = file;

    let rewrite = |mutate: &dyn Fn(&mut SnapshotHeader)| {
        let mut header = SnapshotHeader::decode(&good).unwrap();
        mutate(&mut header);
        let mut bytes = good.clone();
        bytes[..HEADER_BYTES].copy_from_slice(&header.encode());
        bytes
    };

    // Body longer than the file.
    let file = rewrite(&|h| h.body_len += SECTION_ALIGN as u64);
    let file_words = words(&file);
    assert!(matches!(
        load(&file, &file_words, Verify::Header),
        Err(SnapshotError::BodyTruncated { .. })
    ));

    // A dimension the vectors section cannot hold.
    let file = rewrite(&|h| h.dim *= 2);
    let file_words = words(&file);
    assert!(load(&file, &file_words, Verify::Header).is_err());

    // More vectors than there are bytes for.
    let file = rewrite(&|h| h.count += 1);
    let file_words = words(&file);
    assert!(load(&file, &file_words, Verify::Header).is_err());

    // Sections that overlap: node levels claimed to start where the vectors do.
    let file = rewrite(&|h| h.section_offsets[Section::NodeLevels as usize] = 0);
    let file_words = words(&file);
    assert!(matches!(
        load(&file, &file_words, Verify::Header),
        Err(SnapshotError::SectionSizeMismatch { .. })
    ));
}

#[test]
fn a_flipped_header_bit_is_told_apart_from_a_bad_section() {
    let index = build(HnswParams::default(), &points(20, 50, 4), 4);
    let file = snapshot::write(&index, 0).unwrap();

    let mut flipped = file.clone();
    flipped[20] ^= 0x01;
    assert!(matches!(
        SnapshotHeader::decode(&flipped),
        Err(SnapshotError::HeaderChecksumMismatch { .. })
    ));

    let mut header = SnapshotHeader::decode(&file).unwrap();
    header.section_offsets[1] += 2;
    let offset = header.section_offsets[1];
    assert!(matches!(
        SnapshotHeader::decode(&header.encode()),
        Err(SnapshotError::SectionMisaligned { offset: found, .. }) if found == offset
    ));
}

#[test]
fn every_byte_of_the_body_is_protected() {
    let dim = 2;
    let index = build(HnswParams::default(), &points(21, 12, dim), dim);
    let file = snapshot::write(&index, 0).unwrap();
    for at in HEADER_BYTES..file.len() {
        let mut damaged = file.clone();
        damaged[at] ^= 0x04;
        assert!(
            matches!(
                load(&damaged, &words(&damaged), Verify::Body),
                Err(SnapshotError::BodyChecksumMismatch { .. })
            ),
            "byte {at}"
        );
    }
}

#[test]
fn parameters_that_do_not_fit_the_header_are_not_written() {
    let data = points(22, 5, 2);
    let wide = HnswParams::default().with_ef_construction(65_536).unwrap();
    assert_eq!(
        snapshot::write(&build(wide, &data, 2), 0).unwrap_err(),
        SnapshotError::ParameterTooLarge {
            parameter: "ef_construction",
            value: 65_536,
            limit: 65_535,
        }
    );
    let params = HnswParams::default();
    assert_eq!(snapshot::check_writable(&params, 255), Ok(()));
    assert_eq!(
        snapshot::check_writable(&params, 256),
        Err(SnapshotError::ParameterTooLarge { parameter: "max_layer", value: 256, limit: 255 })
    );
}
