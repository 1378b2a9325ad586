//! The snapshot header.
//!
//! 128 bytes, little-endian:
//!
//! ```text
//! off  size  field
//!   0     4  magic "ANKA"
//!   4     4  format_version
//!   8     4  dim
//!  12     4  count            NodeId space, live + tombstoned
//!  16     4  live_count
//!  20     4  entry_point      u32::MAX means none
//!  24     8  rng_seed
//!  32     8  levels_drawn     how many levels the generator has produced
//!  40     8  wal_seq          this snapshot contains log records up to and including this
//!  48     2  M
//!  50     2  max_degree0
//!  52     2  ef_construction
//!  54     1  metric
//!  55     1  max_layer
//!  56    48  section_offsets[6]
//! 104     8  body_len
//! 112     4  body_crc32
//! 116     4  flags            how the graph was built
//! 120     4  reserved
//! 124     4  header_crc32     covers bytes 0..124
//! ```

use vstd::prelude::*;

use crate::first::{first_of, lemma_first_hit};
use crate::metric::{metric_tag, tagged_metric, MetricKind};
use crate::store::bytes::{
    self, crc32, crc32_of, le16, le32, le64, push_bytes, push_u16, push_u32, push_u64, read_u16,
    read_u32, read_u64, value16, value32, value64,
};
use crate::store::error::SnapshotError;
use crate::vector_store::MAX_DIM;
use crate::NodeId;

verus! {

/// The first bytes of a snapshot: "ANKA".
pub const MAGIC: [u8; 4] = [65, 78, 75, 65];

/// On-disk format version.
pub const FORMAT_VERSION: u32 = 1;

pub const HEADER_BYTES: usize = 128;

/// Bytes covered by the header checksum: everything before it.
pub const HEADER_CHECKSUM_BYTES: usize = 124;

pub const SECTION_COUNT: usize = 6;

/// Sections start at multiples of this.
pub const SECTION_ALIGN: usize = 4;

/// Stands for "no entry point". A valid entry point is below the count, so it is never this.
pub const NO_ENTRY_POINT: u32 = 0xFFFF_FFFF;

/// Sections of the snapshot body, in the order they are laid out.
#[derive(Clone, Copy, Debug, PartialEq, Eq, Structural)]
pub enum Section {
    Vectors,
    NodeLevels,
    Layers,
    Tombstones,
    IdMap,
    Metadata,
}

pub open spec fn section_index(section: Section) -> int {
    match section {
        Section::Vectors => 0,
        Section::NodeLevels => 1,
        Section::Layers => 2,
        Section::Tombstones => 3,
        Section::IdMap => 4,
        Section::Metadata => 5,
    }
}

pub open spec fn section_name(index: int) -> &'static str {
    if index == 0 {
        "vectors"
    } else if index == 1 {
        "node_levels"
    } else if index == 2 {
        "layers"
    } else if index == 3 {
        "tombstones"
    } else if index == 4 {
        "id_map"
    } else {
        "metadata"
    }
}

impl Section {
    /// All sections in order.
    pub const ALL: [Section; 6] = [
        Section::Vectors,
        Section::NodeLevels,
        Section::Layers,
        Section::Tombstones,
        Section::IdMap,
        Section::Metadata,
    ];

    pub fn name(self) -> (r: &'static str)
        ensures
            r == section_name(section_index(self)),
    {
        match self {
            Section::Vectors => "vectors",
            Section::NodeLevels => "node_levels",
            Section::Layers => "layers",
            Section::Tombstones => "tombstones",
            Section::IdMap => "id_map",
            Section::Metadata => "metadata",
        }
    }

    pub fn index(self) -> (r: usize)
        ensures
            r == section_index(self),
            r < SECTION_COUNT,
    {
        match self {
            Section::Vectors => 0,
            Section::NodeLevels => 1,
            Section::Layers => 2,
            Section::Tombstones => 3,
            Section::IdMap => 4,
            Section::Metadata => 5,
        }
    }
}

/// How the graph was built.
#[derive(Clone, Copy, Debug, PartialEq, Eq, Structural)]
pub struct HeaderFlags {
    pub heuristic: bool,
    pub keep_pruned: bool,
}

impl Default for HeaderFlags {
    fn default() -> (r: Self)
        ensures
            r == (HeaderFlags { heuristic: false, keep_pruned: false }),
    {
        HeaderFlags { heuristic: false, keep_pruned: false }
    }
}

/// The flags as bits: the heuristic in the lowest, keeping pruned candidates in the next.
pub open spec fn flag_bits(flags: HeaderFlags) -> u32 {
    match (flags.heuristic, flags.keep_pruned) {
        (false, false) => 0,
        (true, false) => 1,
        (false, true) => 2,
        (true, true) => 3,
    }
}

/// The flags that bits stand for; other bits are not ignored.
pub open spec fn flags_of(bits: u32) -> Result<HeaderFlags, SnapshotError> {
    if bits > 3 {
        Err(SnapshotError::UnknownFlags { bits: (bits - bits % 4) as u32 })
    } else {
        Ok(HeaderFlags { heuristic: bits % 2 == 1, keep_pruned: bits / 2 == 1 })
    }
}

impl HeaderFlags {
    pub fn to_bits(self) -> (r: u32)
        ensures
            r == flag_bits(self),
    {
        let low: u32 = if self.heuristic {
            1
        } else {
            0
        };
        let high: u32 = if self.keep_pruned {
            2
        } else {
            0
        };
        low + high
    }

    /// Unknown bits are an error, not something to ignore.
    pub fn from_bits(bits: u32) -> (r: Result<Self, SnapshotError>)
        ensures
            r == flags_of(bits),
    {
        if bits > 3 {
            return Err(SnapshotError::UnknownFlags { bits: bits - bits % 4 });
        }
        Ok(HeaderFlags { heuristic: bits % 2 == 1, keep_pruned: bits / 2 == 1 })
    }
}

/// Everything needed to interpret a snapshot body.
#[derive(Clone, Copy, Debug, PartialEq, Eq)]
pub struct SnapshotHeader {
    pub dim: u32,
    pub count: u32,
    pub live_count: u32,
    pub entry_point: Option<NodeId>,
    pub rng_seed: u64,
    pub levels_drawn: u64,
    pub wal_seq: u64,
    pub m: u16,
    pub max_degree0: u16,
    pub ef_construction: u16,
    pub metric: MetricKind,
    pub max_layer: u8,
    pub section_offsets: [u64; 6],
    pub body_len: u64,
    pub body_crc32: u32,
    pub flags: HeaderFlags,
}

pub open spec fn entry_word(entry: Option<NodeId>) -> u32 {
    match entry {
        Some(node) => node,
        None => NO_ENTRY_POINT,
    }
}

pub open spec fn word_entry(word: u32) -> Option<NodeId> {
    if word != NO_ENTRY_POINT {
        Some(word)
    } else {
        None
    }
}

/// The part of an encoded header that the checksum covers.
pub open spec fn header_prefix(h: SnapshotHeader) -> Seq<u8> {
        MAGIC@
      + le32(FORMAT_VERSION)
      + le32(h.dim)
      + le32(h.count)
      + le32(h.live_count)
      + le32(entry_word(h.entry_point))
      + le64(h.rng_seed)
      + le64(h.levels_drawn)
      + le64(h.wal_seq)
      + le16(h.m)
      + le16(h.max_degree0)
      + le16(h.ef_construction)
      + seq![metric_tag(h.metric)]
      + seq![h.max_layer]
      + le64(h.section_offsets@[0])
      + le64(h.section_offsets@[1])
      + le64(h.section_offsets@[2])
      + le64(h.section_offsets@[3])
      + le64(h.section_offsets@[4])
      + le64(h.section_offsets@[5])
      + le64(h.body_len)
      + le32(h.body_crc32)
      + le32(flag_bits(h.flags))
      + le32(0)
}

/// A header as bytes: the fields, then their checksum.
pub open spec fn header_bytes(h: SnapshotHeader) -> Seq<u8> {
    header_prefix(h) + le32(crc32_of(header_prefix(h)))
}

/// Looks at the offset of section `i`.
pub open spec fn section_check(h: SnapshotHeader) -> spec_fn(int) -> Option<SnapshotError> {
    |i: int|
        {
            let offset = h.section_offsets@[i];
            let previous = if i == 0 {
                0u64
            } else {
                h.section_offsets@[i - 1]
            };
            if offset < previous {
                Some(
                    SnapshotError::SectionsOutOfOrder {
                        section: section_name(i),
                        offset,
                        previous,
                    },
                )
            } else if offset > h.body_len {
                Some(
                    SnapshotError::SectionOutOfRange {
                        section: section_name(i),
                        offset,
                        body_len: h.body_len,
                    },
                )
            } else if offset % 4 != 0 {
                Some(
                    SnapshotError::SectionMisaligned {
                        section: section_name(i),
                        offset,
                        align: SECTION_ALIGN,
                    },
                )
            } else {
                None
            }
        }
}

/// Why a header describes something impossible, if it does.
pub open spec fn header_error(h: SnapshotHeader) -> Option<SnapshotError> {
    if h.dim == 0 || h.dim > MAX_DIM {
        Some(SnapshotError::InvalidDim { dim: h.dim })
    } else if h.live_count > h.count {
        Some(SnapshotError::LiveCountAboveCount { live_count: h.live_count, count: h.count })
    } else if h.entry_point is Some && h.entry_point->0 >= h.count {
        Some(
            SnapshotError::EntryPointOutOfRange {
                entry_point: h.entry_point->0,
                count: h.count,
            },
        )
    } else if h.entry_point is None && h.count > 0 {
        Some(SnapshotError::MissingEntryPoint { count: h.count })
    } else if h.m == 0 || h.max_degree0 < h.m {
        Some(SnapshotError::InvalidDegrees { m: h.m, max_degree0: h.max_degree0 })
    } else if h.ef_construction == 0 {
        Some(SnapshotError::InvalidEfConstruction)
    } else {
        first_of(6, section_check(h))
    }
}

pub open spec fn field16(s: Seq<u8>, at: int) -> u16 {
    value16(s.subrange(at, at + 2))
}

pub open spec fn field32(s: Seq<u8>, at: int) -> u32 {
    value32(s.subrange(at, at + 4))
}

pub open spec fn field64(s: Seq<u8>, at: int) -> u64 {
    value64(s.subrange(at, at + 8))
}

/// The header that checked bytes hold, with the given metric and flags.
pub open spec fn header_fields(
    s: Seq<u8>,
    metric: MetricKind,
    flags: HeaderFlags,
) -> SnapshotHeader {
    SnapshotHeader {
        dim: field32(s, 8),
        count: field32(s, 12),
        live_count: field32(s, 16),
        entry_point: word_entry(field32(s, 20)),
        rng_seed: field64(s, 24),
        levels_drawn: field64(s, 32),
        wal_seq: field64(s, 40),
        m: field16(s, 48),
        max_degree0: field16(s, 50),
        ef_construction: field16(s, 52),
        metric,
        max_layer: s[55],
        section_offsets: [
            field64(s, 56),
            field64(s, 64),
            field64(s, 72),
            field64(s, 80),
            field64(s, 88),
            field64(s, 96),
        ],
        body_len: field64(s, 104),
        body_crc32: field32(s, 112),
        flags,
    }
}

/// What bytes decode to. No field is trusted before the checksum is, and none is handed out that
/// describes something impossible.
pub open spec fn decoded(s: Seq<u8>) -> Result<SnapshotHeader, SnapshotError> {
    if s.len() < HEADER_BYTES {
        Err(SnapshotError::TooShort { needed: HEADER_BYTES, got: s.len() as usize })
    } else if s.take(4) != MAGIC@ {
        Err(SnapshotError::BadMagic { found: [s[0], s[1], s[2], s[3]] })
    } else if field32(s, 124) != crc32_of(s.take(124)) {
        Err(
            SnapshotError::HeaderChecksumMismatch {
                stored: field32(s, 124),
                computed: crc32_of(s.take(124)),
            },
        )
    } else if field32(s, 4) != FORMAT_VERSION {
        Err(
            SnapshotError::UnsupportedVersion {
                found: field32(s, 4),
                supported: FORMAT_VERSION,
            },
        )
    } else {
        match flags_of(field32(s, 116)) {
            Err(e) => Err(e),
            Ok(flags) => match tagged_metric(s[54]) {
                None => Err(SnapshotError::UnknownMetric { tag: s[54] }),
                Some(metric) => {
                    let h = header_fields(s, metric, flags);
                    match header_error(h) {
                        Some(e) => Err(e),
                        None => Ok(h),
                    }
                },
            },
        }
    }
}

/// Where `section` starts in the body, and where it ends.
pub open spec fn section_start_of(h: SnapshotHeader, section: Section) -> u64 {
    h.section_offsets@[section_index(section)]
}

pub open spec fn section_end_of(h: SnapshotHeader, section: Section) -> u64 {
    if section_index(section) == 5 {
        h.body_len
    } else {
        h.section_offsets@[section_index(section) + 1]
    }
}

/// Each flag has a bit of its own, which is set if and only if the flag is, and no other bit is
/// ever written. Bits that stand for nothing are refused, and named without those that do.
pub proof fn lemma_flags(flags: HeaderFlags, bits: u32)
    ensures
        flag_bits(flags) == (if flags.heuristic {
            1int
        } else {
            0
        }) + (if flags.keep_pruned {
            2int
        } else {
            0
        }),
        flags_of(flag_bits(flags)) == Ok::<HeaderFlags, SnapshotError>(flags),
        bits < 4 ==> {
            &&& flags_of(bits) is Ok
            &&& flag_bits(flags_of(bits)->Ok_0) == bits
        },
        bits >= 4 ==> {
            &&& flags_of(bits) matches Err(SnapshotError::UnknownFlags { bits: unknown })
            &&& unknown % 4 == 0
            &&& unknown <= bits < unknown + 4
        },
{
}

/// The word for an entry point is its number, and all ones if there is none.
pub proof fn lemma_entry_word(node: NodeId)
    ensures
        node < 0xFFFF_FFFF ==> {
            &&& entry_word(Some(node)) == node
            &&& word_entry(node) == Some(node)
        },
        entry_word(None) == 0xFFFF_FFFFu32,
        word_entry(0xFFFF_FFFFu32) is None,
        entry_word(word_entry(node)) == node,
{
}

/// A header is accepted if and only if what it describes is possible: between one and 4096
/// components, no more live nodes than nodes, an entry point among the nodes exactly if there are
/// nodes, room for neighbours, a beam, and sections that follow one another inside the body at
/// multiples of four.
pub proof fn lemma_header_accepted(h: SnapshotHeader)
    ensures
        header_error(h) is None <==> {
            &&& 1 <= h.dim <= 4096
            &&& h.live_count <= h.count
            &&& match h.entry_point {
                Some(entry) => entry < h.count,
                None => h.count == 0,
            }
            &&& 1 <= h.m <= h.max_degree0
            &&& h.ef_construction >= 1
            &&& forall|i: int, j: int|
                0 <= i <= j < 6 ==> #[trigger] h.section_offsets@[i]
                    <= #[trigger] h.section_offsets@[j]
            &&& forall|i: int|
                0 <= i < 6 ==> {
                    &&& #[trigger] h.section_offsets@[i] <= h.body_len
                    &&& h.section_offsets@[i] % 4 == 0
                }
        },
{
    let check = section_check(h);
    let o = h.section_offsets@;
    if header_error(h) is None {
        crate::first::lemma_first_none(6, check);
        assert(check(0) is None && check(1) is None && check(2) is None && check(3) is None
            && check(4) is None && check(5) is None);
        assert(o[0] <= o[1] <= o[2] <= o[3] <= o[4] <= o[5]);
        assert forall|i: int, j: int| 0 <= i <= j < 6 implies #[trigger] o[i]
            <= #[trigger] o[j] by {
            assert(i == 0 || i == 1 || i == 2 || i == 3 || i == 4 || i == 5);
            assert(j == 0 || j == 1 || j == 2 || j == 3 || j == 4 || j == 5);
        }
        assert forall|i: int| 0 <= i < 6 implies {
            &&& #[trigger] o[i] <= h.body_len
            &&& o[i] % 4 == 0
        } by {
            assert(check(i) is None);
        }
    }
    if first_of(6, check) is Some {
        let i = crate::first::lemma_first_some(6, check);
        assert(check(i) is Some);
        assert(o[i] <= h.body_len || o[i] > h.body_len);
        if i > 0 {
            assert(o[i - 1] <= o[i] || o[i - 1] > o[i]);
        }
    }
}

/// Each refusal of a header names what is wrong with it.
pub proof fn lemma_header_refused(h: SnapshotHeader)
    requires
        header_error(h) is Some,
    ensures
        match header_error(h)->0 {
            SnapshotError::InvalidDim { dim } => dim == h.dim && (dim == 0 || dim > 4096),
            SnapshotError::LiveCountAboveCount { live_count, count } => live_count == h.live_count
                && count == h.count && live_count > count,
            SnapshotError::EntryPointOutOfRange { entry_point, count } => h.entry_point == Some(
                entry_point,
            ) && count == h.count && entry_point >= count,
            SnapshotError::MissingEntryPoint { count } => h.entry_point is None && count == h.count
                && count > 0,
            SnapshotError::InvalidDegrees { m, max_degree0 } => m == h.m && max_degree0
                == h.max_degree0 && (m == 0 || max_degree0 < m),
            SnapshotError::InvalidEfConstruction => h.ef_construction == 0,
            SnapshotError::SectionsOutOfOrder { section, offset, previous } => exists|i: int|
                0 < i < 6 && #[trigger] h.section_offsets@[i] == offset && section == section_name(
                    i,
                ) && h.section_offsets@[i - 1] == previous && offset < previous,
            SnapshotError::SectionOutOfRange { section, offset, body_len } => exists|i: int|
                0 <= i < 6 && #[trigger] h.section_offsets@[i] == offset && section == section_name(
                    i,
                ) && body_len == h.body_len && offset > body_len,
            SnapshotError::SectionMisaligned { section, offset, align } => exists|i: int|
                0 <= i < 6 && #[trigger] h.section_offsets@[i] == offset && section == section_name(
                    i,
                ) && align == 4 && offset % 4 != 0,
            _ => false,
        },
{
    let check = section_check(h);
    if header_error(h) == first_of(6, check) {
        let i = crate::first::lemma_first_some(6, check);
        assert(check(i) is Some);
        assert(h.section_offsets@[i] == h.section_offsets@[i]);
    }
}

/// Once a part of a sequence is written, what is written after it does not change it.
proof fn lemma_stays(earlier: Seq<u8>, whole: Seq<u8>, from: int, to: int)
    requires
        earlier.is_prefix_of(whole),
        0 <= from <= to <= earlier.len(),
    ensures
        whole.subrange(from, to) == earlier.subrange(from, to),
{
    assert(earlier =~= whole.take(earlier.len() as int));
    assert(whole.subrange(from, to) =~= earlier.subrange(from, to));
}

/// Appending a field: what was there starts the result, and the field ends it.
proof fn lemma_appended(earlier: Seq<u8>, field: Seq<u8>)
    ensures
        earlier.is_prefix_of(earlier + field),
        (earlier + field).subrange(earlier.len() as int, (earlier + field).len() as int) == field,
{
    assert((earlier + field).take(earlier.len() as int) =~= earlier);
    assert((earlier + field).subrange(earlier.len() as int, (earlier + field).len() as int)
        =~= field);
}

proof fn lemma_prefix_transitive(a: Seq<u8>, b: Seq<u8>, c: Seq<u8>)
    requires
        a.is_prefix_of(b),
        b.is_prefix_of(c),
    ensures
        a.is_prefix_of(c),
{
    assert(c.take(a.len() as int) =~= b.take(a.len() as int));
}

/// Where each field stands in an encoded header.
pub proof fn lemma_header_fields(h: SnapshotHeader)
    ensures
        header_prefix(h).len() == HEADER_CHECKSUM_BYTES,
        header_prefix(h).subrange(0, 4) == MAGIC@,
        header_prefix(h).subrange(4, 8) == le32(FORMAT_VERSION),
        header_prefix(h).subrange(8, 12) == le32(h.dim),
        header_prefix(h).subrange(12, 16) == le32(h.count),
        header_prefix(h).subrange(16, 20) == le32(h.live_count),
        header_prefix(h).subrange(20, 24) == le32(entry_word(h.entry_point)),
        header_prefix(h).subrange(24, 32) == le64(h.rng_seed),
        header_prefix(h).subrange(32, 40) == le64(h.levels_drawn),
        header_prefix(h).subrange(40, 48) == le64(h.wal_seq),
        header_prefix(h).subrange(48, 50) == le16(h.m),
        header_prefix(h).subrange(50, 52) == le16(h.max_degree0),
        header_prefix(h).subrange(52, 54) == le16(h.ef_construction),
        header_prefix(h).subrange(54, 55) == seq![metric_tag(h.metric)],
        header_prefix(h).subrange(55, 56) == seq![h.max_layer],
        header_prefix(h).subrange(56, 64) == le64(h.section_offsets@[0]),
        header_prefix(h).subrange(64, 72) == le64(h.section_offsets@[1]),
        header_prefix(h).subrange(72, 80) == le64(h.section_offsets@[2]),
        header_prefix(h).subrange(80, 88) == le64(h.section_offsets@[3]),
        header_prefix(h).subrange(88, 96) == le64(h.section_offsets@[4]),
        header_prefix(h).subrange(96, 104) == le64(h.section_offsets@[5]),
        header_prefix(h).subrange(104, 112) == le64(h.body_len),
        header_prefix(h).subrange(112, 116) == le32(h.body_crc32),
        header_prefix(h).subrange(116, 120) == le32(flag_bits(h.flags)),
        header_prefix(h).subrange(120, 124) == le32(0),
{
    let p0 = Seq::<u8>::empty();
    let p1 = MAGIC@;
    bytes::lemma_le32(FORMAT_VERSION, Seq::empty());
    let p2 = p1 + le32(FORMAT_VERSION);
    lemma_appended(p1, le32(FORMAT_VERSION));
    bytes::lemma_le32(h.dim, Seq::empty());
    let p3 = p2 + le32(h.dim);
    lemma_appended(p2, le32(h.dim));
    bytes::lemma_le32(h.count, Seq::empty());
    let p4 = p3 + le32(h.count);
    lemma_appended(p3, le32(h.count));
    bytes::lemma_le32(h.live_count, Seq::empty());
    let p5 = p4 + le32(h.live_count);
    lemma_appended(p4, le32(h.live_count));
    bytes::lemma_le32(entry_word(h.entry_point), Seq::empty());
    let p6 = p5 + le32(entry_word(h.entry_point));
    lemma_appended(p5, le32(entry_word(h.entry_point)));
    bytes::lemma_le64(h.rng_seed, Seq::empty());
    let p7 = p6 + le64(h.rng_seed);
    lemma_appended(p6, le64(h.rng_seed));
    bytes::lemma_le64(h.levels_drawn, Seq::empty());
    let p8 = p7 + le64(h.levels_drawn);
    lemma_appended(p7, le64(h.levels_drawn));
    bytes::lemma_le64(h.wal_seq, Seq::empty());
    let p9 = p8 + le64(h.wal_seq);
    lemma_appended(p8, le64(h.wal_seq));
    bytes::lemma_le16(h.m, Seq::empty());
    let p10 = p9 + le16(h.m);
    lemma_appended(p9, le16(h.m));
    bytes::lemma_le16(h.max_degree0, Seq::empty());
    let p11 = p10 + le16(h.max_degree0);
    lemma_appended(p10, le16(h.max_degree0));
    bytes::lemma_le16(h.ef_construction, Seq::empty());
    let p12 = p11 + le16(h.ef_construction);
    lemma_appended(p11, le16(h.ef_construction));
    let p13 = p12 + seq![metric_tag(h.metric)];
    lemma_appended(p12, seq![metric_tag(h.metric)]);
    let p14 = p13 + seq![h.max_layer];
    lemma_appended(p13, seq![h.max_layer]);
    bytes::lemma_le64(h.section_offsets@[0], Seq::empty());
    let p15 = p14 + le64(h.section_offsets@[0]);
    lemma_appended(p14, le64(h.section_offsets@[0]));
    bytes::lemma_le64(h.section_offsets@[1], Seq::empty());
    let p16 = p15 + le64(h.section_offsets@[1]);
    lemma_appended(p15, le64(h.section_offsets@[1]));
    bytes::lemma_le64(h.section_offsets@[2], Seq::empty());
    let p17 = p16 + le64(h.section_offsets@[2]);
    lemma_appended(p16, le64(h.section_offsets@[2]));
    bytes::lemma_le64(h.section_offsets@[3], Seq::empty());
    let p18 = p17 + le64(h.section_offsets@[3]);
    lemma_appended(p17, le64(h.section_offsets@[3]));
    bytes::lemma_le64(h.section_offsets@[4], Seq::empty());
    let p19 = p18 + le64(h.section_offsets@[4]);
    lemma_appended(p18, le64(h.section_offsets@[4]));
    bytes::lemma_le64(h.section_offsets@[5], Seq::empty());
    let p20 = p19 + le64(h.section_offsets@[5]);
    lemma_appended(p19, le64(h.section_offsets@[5]));
    bytes::lemma_le64(h.body_len, Seq::empty());
    let p21 = p20 + le64(h.body_len);
    lemma_appended(p20, le64(h.body_len));
    bytes::lemma_le32(h.body_crc32, Seq::empty());
    let p22 = p21 + le32(h.body_crc32);
    lemma_appended(p21, le32(h.body_crc32));
    bytes::lemma_le32(flag_bits(h.flags), Seq::empty());
    let p23 = p22 + le32(flag_bits(h.flags));
    lemma_appended(p22, le32(flag_bits(h.flags)));
    bytes::lemma_le32(0, Seq::empty());
    let p24 = p23 + le32(0);
    lemma_appended(p23, le32(0));
    assert(header_prefix(h) == p24);
    lemma_prefix_transitive(p22, p23, p24);
    lemma_prefix_transitive(p21, p22, p24);
    lemma_prefix_transitive(p20, p21, p24);
    lemma_prefix_transitive(p19, p20, p24);
    lemma_prefix_transitive(p18, p19, p24);
    lemma_prefix_transitive(p17, p18, p24);
    lemma_prefix_transitive(p16, p17, p24);
    lemma_prefix_transitive(p15, p16, p24);
    lemma_prefix_transitive(p14, p15, p24);
    lemma_prefix_transitive(p13, p14, p24);
    lemma_prefix_transitive(p12, p13, p24);
    lemma_prefix_transitive(p11, p12, p24);
    lemma_prefix_transitive(p10, p11, p24);
    lemma_prefix_transitive(p9, p10, p24);
    lemma_prefix_transitive(p8, p9, p24);
    lemma_prefix_transitive(p7, p8, p24);
    lemma_prefix_transitive(p6, p7, p24);
    lemma_prefix_transitive(p5, p6, p24);
    lemma_prefix_transitive(p4, p5, p24);
    lemma_prefix_transitive(p3, p4, p24);
    lemma_prefix_transitive(p2, p3, p24);
    lemma_prefix_transitive(p1, p2, p24);
    lemma_stays(p1, p24, 0, 4);
    assert(p1.subrange(0, 4) =~= p1);
    lemma_stays(p2, p24, 4, 8);
    lemma_stays(p3, p24, 8, 12);
    lemma_stays(p4, p24, 12, 16);
    lemma_stays(p5, p24, 16, 20);
    lemma_stays(p6, p24, 20, 24);
    lemma_stays(p7, p24, 24, 32);
    lemma_stays(p8, p24, 32, 40);
    lemma_stays(p9, p24, 40, 48);
    lemma_stays(p10, p24, 48, 50);
    lemma_stays(p11, p24, 50, 52);
    lemma_stays(p12, p24, 52, 54);
    lemma_stays(p13, p24, 54, 55);
    lemma_stays(p14, p24, 55, 56);
    lemma_stays(p15, p24, 56, 64);
    lemma_stays(p16, p24, 64, 72);
    lemma_stays(p17, p24, 72, 80);
    lemma_stays(p18, p24, 80, 88);
    lemma_stays(p19, p24, 88, 96);
    lemma_stays(p20, p24, 96, 104);
    lemma_stays(p21, p24, 104, 112);
    lemma_stays(p22, p24, 112, 116);
    lemma_stays(p23, p24, 116, 120);
}

/// A header comes back from its bytes, whatever follows them.
pub proof fn lemma_header_round_trip(h: SnapshotHeader, rest: Seq<u8>)
    requires
        header_error(h) is None,
    ensures
        header_bytes(h).len() == HEADER_BYTES,
        decoded(header_bytes(h) + rest) == Ok::<SnapshotHeader, SnapshotError>(h),
{
    let prefix = header_prefix(h);
    let sum = le32(crc32_of(prefix));
    let s = header_bytes(h) + rest;
    lemma_header_fields(h);
    bytes::lemma_le32(crc32_of(prefix), Seq::empty());
    assert(s.take(124) =~= prefix);
    assert(s.subrange(124, 128) =~= sum);
    lemma_appended(prefix, sum + rest);
    assert(s =~= prefix + (sum + rest));
    lemma_stays(prefix, s, 0, 4);
    lemma_stays(prefix, s, 4, 8);
    bytes::lemma_le32(FORMAT_VERSION, Seq::empty());
    lemma_stays(prefix, s, 8, 12);
    bytes::lemma_le32(h.dim, Seq::empty());
    lemma_stays(prefix, s, 12, 16);
    bytes::lemma_le32(h.count, Seq::empty());
    lemma_stays(prefix, s, 16, 20);
    bytes::lemma_le32(h.live_count, Seq::empty());
    lemma_stays(prefix, s, 20, 24);
    bytes::lemma_le32(entry_word(h.entry_point), Seq::empty());
    lemma_stays(prefix, s, 24, 32);
    bytes::lemma_le64(h.rng_seed, Seq::empty());
    lemma_stays(prefix, s, 32, 40);
    bytes::lemma_le64(h.levels_drawn, Seq::empty());
    lemma_stays(prefix, s, 40, 48);
    bytes::lemma_le64(h.wal_seq, Seq::empty());
    lemma_stays(prefix, s, 48, 50);
    bytes::lemma_le16(h.m, Seq::empty());
    lemma_stays(prefix, s, 50, 52);
    bytes::lemma_le16(h.max_degree0, Seq::empty());
    lemma_stays(prefix, s, 52, 54);
    bytes::lemma_le16(h.ef_construction, Seq::empty());
    lemma_stays(prefix, s, 54, 55);
    lemma_stays(prefix, s, 55, 56);
    lemma_stays(prefix, s, 56, 64);
    bytes::lemma_le64(h.section_offsets@[0], Seq::empty());
    lemma_stays(prefix, s, 64, 72);
    bytes::lemma_le64(h.section_offsets@[1], Seq::empty());
    lemma_stays(prefix, s, 72, 80);
    bytes::lemma_le64(h.section_offsets@[2], Seq::empty());
    lemma_stays(prefix, s, 80, 88);
    bytes::lemma_le64(h.section_offsets@[3], Seq::empty());
    lemma_stays(prefix, s, 88, 96);
    bytes::lemma_le64(h.section_offsets@[4], Seq::empty());
    lemma_stays(prefix, s, 96, 104);
    bytes::lemma_le64(h.section_offsets@[5], Seq::empty());
    lemma_stays(prefix, s, 104, 112);
    bytes::lemma_le64(h.body_len, Seq::empty());
    lemma_stays(prefix, s, 112, 116);
    bytes::lemma_le32(h.body_crc32, Seq::empty());
    lemma_stays(prefix, s, 116, 120);
    bytes::lemma_le32(flag_bits(h.flags), Seq::empty());
    lemma_stays(prefix, s, 120, 124);
    bytes::lemma_le32(0, Seq::empty());
    assert(s.take(4) =~= s.subrange(0, 4));
    assert(s.subrange(54, 55)[0] == s[54]);
    assert(s.subrange(55, 56)[0] == s[55]);
    crate::metric::lemma_metric_tag_round_trip(h.metric, 0);
    let back = header_fields(s, h.metric, h.flags);
    assert(back.section_offsets@ =~= h.section_offsets@);
    assert(back.section_offsets =~= h.section_offsets);
    assert(back == h);
}

/// Sequences that start alike and go on alike start alike for longer.
proof fn lemma_same_further(a: Seq<u8>, b: Seq<u8>, from: int, to: int)
    requires
        0 <= from <= to <= a.len(),
        to <= b.len(),
        a.take(from) == b.take(from),
        a.subrange(from, to) == b.subrange(from, to),
    ensures
        a.take(to) == b.take(to),
{
    assert(a.take(to) =~= a.take(from) + a.subrange(from, to));
    assert(b.take(to) =~= b.take(from) + b.subrange(from, to));
}

/// Bytes that decode to a header are the bytes of that header, up to the reserved word: no two
/// headers share their bytes, and nothing but a valid header in front of its own checksum is
/// decoded.
#[verifier::spinoff_prover]
#[verifier::rlimit(40)]
pub proof fn lemma_decoded_is_encoded(s: Seq<u8>)
    requires
        decoded(s) is Ok,
    ensures
        ({
            let h = decoded(s)->Ok_0;
            &&& s.len() >= 128
            &&& header_error(h) is None
            &&& s.take(120) == header_bytes(h).take(120)
            &&& s.subrange(124, 128) == le32(crc32_of(s.take(124)))
        }),
{
    let h = decoded(s)->Ok_0;
    let prefix = header_prefix(h);
    lemma_header_fields(h);
    lemma_flags(h.flags, field32(s, 116));
    lemma_entry_word(field32(s, 20));
    crate::metric::lemma_metric_tag_round_trip(h.metric, s[54]);
    assert(s.subrange(0, 4) =~= s.take(4));
    assert(s.take(0) =~= prefix.take(0));
    lemma_same_further(s, prefix, 0, 4);
    bytes::lemma_le32(0, s.subrange(4, 8));
    lemma_same_further(s, prefix, 4, 8);
    bytes::lemma_le32(0, s.subrange(8, 12));
    lemma_same_further(s, prefix, 8, 12);
    bytes::lemma_le32(0, s.subrange(12, 16));
    lemma_same_further(s, prefix, 12, 16);
    bytes::lemma_le32(0, s.subrange(16, 20));
    lemma_same_further(s, prefix, 16, 20);
    bytes::lemma_le32(0, s.subrange(20, 24));
    lemma_same_further(s, prefix, 20, 24);
    bytes::lemma_le64(0, s.subrange(24, 32));
    lemma_same_further(s, prefix, 24, 32);
    bytes::lemma_le64(0, s.subrange(32, 40));
    lemma_same_further(s, prefix, 32, 40);
    bytes::lemma_le64(0, s.subrange(40, 48));
    lemma_same_further(s, prefix, 40, 48);
    bytes::lemma_le16(0, s.subrange(48, 50));
    lemma_same_further(s, prefix, 48, 50);
    bytes::lemma_le16(0, s.subrange(50, 52));
    lemma_same_further(s, prefix, 50, 52);
    bytes::lemma_le16(0, s.subrange(52, 54));
    lemma_same_further(s, prefix, 52, 54);
    assert(prefix.subrange(54, 55)[0] == prefix[54]);
    assert(s.subrange(54, 55) =~= prefix.subrange(54, 55));
    lemma_same_further(s, prefix, 54, 55);
    assert(prefix.subrange(55, 56)[0] == prefix[55]);
    assert(s.subrange(55, 56) =~= prefix.subrange(55, 56));
    lemma_same_further(s, prefix, 55, 56);
    bytes::lemma_le64(0, s.subrange(56, 64));
    lemma_same_further(s, prefix, 56, 64);
    bytes::lemma_le64(0, s.subrange(64, 72));
    lemma_same_further(s, prefix, 64, 72);
    bytes::lemma_le64(0, s.subrange(72, 80));
    lemma_same_further(s, prefix, 72, 80);
    bytes::lemma_le64(0, s.subrange(80, 88));
    lemma_same_further(s, prefix, 80, 88);
    bytes::lemma_le64(0, s.subrange(88, 96));
    lemma_same_further(s, prefix, 88, 96);
    bytes::lemma_le64(0, s.subrange(96, 104));
    lemma_same_further(s, prefix, 96, 104);
    bytes::lemma_le64(0, s.subrange(104, 112));
    lemma_same_further(s, prefix, 104, 112);
    bytes::lemma_le32(0, s.subrange(112, 116));
    lemma_same_further(s, prefix, 112, 116);
    bytes::lemma_le32(0, s.subrange(116, 120));
    lemma_same_further(s, prefix, 116, 120);
    assert(header_bytes(h).take(120) =~= prefix.take(120));
    bytes::lemma_le32(0, s.subrange(124, 128));
}

/// Every byte of a header is protected: with any one of them changed, whatever follows, it is not
/// decoded. A changed magic is told as such, and any other change by the checksum, before a field
/// is looked at.
pub proof fn lemma_damaged_header_is_noticed(h: SnapshotHeader, at: int, byte: u8, rest: Seq<u8>)
    requires
        0 <= at < HEADER_BYTES,
        byte != header_bytes(h)[at],
    ensures
        ({
            let s = header_bytes(h).update(at, byte) + rest;
            &&& at < 4 ==> decoded(s) == Err::<SnapshotHeader, SnapshotError>(
                SnapshotError::BadMagic { found: [s[0], s[1], s[2], s[3]] },
            )
            &&& at >= 4 ==> decoded(s) == Err::<SnapshotHeader, SnapshotError>(
                SnapshotError::HeaderChecksumMismatch {
                    stored: field32(s, 124),
                    computed: crc32_of(s.take(124)),
                },
            )
        }),
{
    let prefix = header_prefix(h);
    let sum = le32(crc32_of(prefix));
    let s = header_bytes(h).update(at, byte) + rest;
    lemma_header_fields(h);
    bytes::lemma_le32(crc32_of(prefix), s.subrange(124, 128));
    assert(s.len() >= HEADER_BYTES);
    assert(prefix.subrange(0, 4)[at] == header_bytes(h)[at] || at >= 4);
    if at < 4 {
        assert(s.take(4)[at] == byte);
        assert(MAGIC@[at] != byte);
    } else {
        assert(s.take(4) =~= prefix.subrange(0, 4));
        if at < 124 {
            assert(s.take(124) =~= prefix.update(at, byte));
            assert(s.subrange(124, 128) =~= sum);
            bytes::lemma_changed_byte_is_noticed(prefix, at, byte);
        } else {
            assert(s.take(124) =~= prefix);
            assert(s.subrange(124, 128)[at - 124] == byte);
            assert(sum[at - 124] != byte);
        }
    }
}

/// The sections of a valid header tile the body from the first section on: each starts where the
/// one before it ends, none ends before it starts, and the last one ends with the body.
pub proof fn lemma_sections_tile(h: SnapshotHeader, section: Section)
    requires
        header_error(h) is None,
    ensures
        section_start_of(h, section) <= section_end_of(h, section) <= h.body_len,
        section_start_of(h, section) % 4 == 0,
        section == Section::Metadata ==> section_end_of(h, section) == h.body_len,
        forall|next: Section|
            section_index(next) == section_index(section) + 1 ==> section_end_of(h, section)
                == #[trigger] section_start_of(h, next),
{
    let check = section_check(h);
    crate::first::lemma_first_none(6, check);
    let i = section_index(section);
    assert(check(i) is None);
    if i < 5 {
        assert(check(i + 1) is None);
    }
}

impl SnapshotHeader {
    /// Serialises to exactly [`HEADER_BYTES`] bytes, checksum included.
    pub fn encode(&self) -> (r: [u8; 128])
        ensures
            r@ == header_bytes(*self),
    {
        let mut buf: Vec<u8> = Vec::with_capacity(HEADER_BYTES);
        push_bytes(&mut buf, &MAGIC);
        push_u32(&mut buf, FORMAT_VERSION);
        push_u32(&mut buf, self.dim);
        push_u32(&mut buf, self.count);
        push_u32(&mut buf, self.live_count);
        push_u32(
            &mut buf,
            match self.entry_point {
                Some(node) => node,
                None => NO_ENTRY_POINT,
            },
        );
        push_u64(&mut buf, self.rng_seed);
        push_u64(&mut buf, self.levels_drawn);
        push_u64(&mut buf, self.wal_seq);
        push_u16(&mut buf, self.m);
        push_u16(&mut buf, self.max_degree0);
        push_u16(&mut buf, self.ef_construction);
        let tag: u8 = self.metric.as_u8();
        push_bytes(&mut buf, &[tag]);
        push_bytes(&mut buf, &[self.max_layer]);
        push_u64(&mut buf, self.section_offsets[0]);
        push_u64(&mut buf, self.section_offsets[1]);
        push_u64(&mut buf, self.section_offsets[2]);
        push_u64(&mut buf, self.section_offsets[3]);
        push_u64(&mut buf, self.section_offsets[4]);
        push_u64(&mut buf, self.section_offsets[5]);
        push_u64(&mut buf, self.body_len);
        push_u32(&mut buf, self.body_crc32);
        push_u32(&mut buf, self.flags.to_bits());
        push_u32(&mut buf, 0);
        proof {
            lemma_header_fields(*self);
            assert(buf@ == header_prefix(*self));
            bytes::lemma_le32(crc32_of(buf@), Seq::empty());
        }
        let checksum: u32 = crc32(buf.as_slice());
        push_u32(&mut buf, checksum);
        let mut out: [u8; 128] = [0u8; 128];
        let mut i: usize = 0;
        while i < HEADER_BYTES
            invariant
                i <= HEADER_BYTES,
                buf@.len() == HEADER_BYTES,
                out@.len() == HEADER_BYTES,
                forall|j: int| 0 <= j < i ==> out@[j] == buf@[j],
            decreases HEADER_BYTES - i,
        {
            out[i] = buf[i];
            i += 1;
        }
        proof {
            assert(out@ =~= buf@);
        }
        out
    }

    /// Parses and validates a header. Bytes after it are not looked at.
    pub fn decode(bytes: &[u8]) -> (r: Result<Self, SnapshotError>)
        ensures
            r == decoded(bytes@),
    {
        if bytes.len() < HEADER_BYTES {
            return Err(SnapshotError::TooShort { needed: HEADER_BYTES, got: bytes.len() });
        }
        let ghost s = bytes@;
        if bytes[0] != MAGIC[0] || bytes[1] != MAGIC[1] || bytes[2] != MAGIC[2] || bytes[3]
            != MAGIC[3] {
            proof {
                if s.take(4) == MAGIC@ {
                    assert(s.take(4)[0] == s[0] && s.take(4)[1] == s[1] && s.take(4)[2] == s[2]
                        && s.take(4)[3] == s[3]);
                }
            }
            return Err(SnapshotError::BadMagic { found: [bytes[0], bytes[1], bytes[2], bytes[3]] });
        }
        proof {
            assert(s.take(4) =~= MAGIC@);
        }
        let stored: u32 = read_u32(bytes, HEADER_CHECKSUM_BYTES);
        let covered = vstd::slice::slice_subrange(bytes, 0, HEADER_CHECKSUM_BYTES);
        proof {
            assert(covered@ =~= s.take(124));
        }
        let computed: u32 = crc32(covered);
        if stored != computed {
            return Err(SnapshotError::HeaderChecksumMismatch { stored, computed });
        }
        let version: u32 = read_u32(bytes, 4);
        if version != FORMAT_VERSION {
            return Err(
                SnapshotError::UnsupportedVersion { found: version, supported: FORMAT_VERSION },
            );
        }
        let flags = match HeaderFlags::from_bits(read_u32(bytes, 116)) {
            Err(e) => {
                return Err(e);
            },
            Ok(flags) => flags,
        };
        let tag: u8 = bytes[54];
        let metric = match MetricKind::from_u8(tag) {
            None => {
                return Err(SnapshotError::UnknownMetric { tag });
            },
            Some(metric) => metric,
        };
        let entry: u32 = read_u32(bytes, 20);
        let header = SnapshotHeader {
            dim: read_u32(bytes, 8),
            count: read_u32(bytes, 12),
            live_count: read_u32(bytes, 16),
            entry_point: if entry != NO_ENTRY_POINT {
                Some(entry)
            } else {
                None
            },
            rng_seed: read_u64(bytes, 24),
            levels_drawn: read_u64(bytes, 32),
            wal_seq: read_u64(bytes, 40),
            m: read_u16(bytes, 48),
            max_degree0: read_u16(bytes, 50),
            ef_construction: read_u16(bytes, 52),
            metric,
            max_layer: bytes[55],
            section_offsets: [
                read_u64(bytes, 56),
                read_u64(bytes, 64),
                read_u64(bytes, 72),
                read_u64(bytes, 80),
                read_u64(bytes, 88),
                read_u64(bytes, 96),
            ],
            body_len: read_u64(bytes, 104),
            body_crc32: read_u32(bytes, 112),
            flags,
        };
        proof {
            assert(header == header_fields(s, metric, flags));
        }
        match header.validate() {
            Err(e) => Err(e),
            Ok(_) => Ok(header),
        }
    }

    /// Consistency checks that the checksum cannot catch.
    fn validate(&self) -> (r: Result<(), SnapshotError>)
        ensures
            match r {
                Ok(_) => header_error(*self) is None,
                Err(e) => header_error(*self) == Some(e),
            },
    {
        if self.dim == 0 || self.dim as usize > MAX_DIM {
            return Err(SnapshotError::InvalidDim { dim: self.dim });
        }
        if self.live_count > self.count {
            return Err(
                SnapshotError::LiveCountAboveCount {
                    live_count: self.live_count,
                    count: self.count,
                },
            );
        }
        match self.entry_point {
            Some(entry) => {
                if entry >= self.count {
                    return Err(
                        SnapshotError::EntryPointOutOfRange {
                            entry_point: entry,
                            count: self.count,
                        },
                    );
                }
            },
            None => {
                if self.count > 0 {
                    return Err(SnapshotError::MissingEntryPoint { count: self.count });
                }
            },
        }
        if self.m == 0 || self.max_degree0 < self.m {
            return Err(
                SnapshotError::InvalidDegrees { m: self.m, max_degree0: self.max_degree0 },
            );
        }
        if self.ef_construction == 0 {
            return Err(SnapshotError::InvalidEfConstruction);
        }
        let ghost check = section_check(*self);
        let mut previous: u64 = 0;
        let mut i: usize = 0;
        while i < SECTION_COUNT
            invariant
                i <= SECTION_COUNT,
                check == section_check(*self),
                previous == if i == 0 {
                    0u64
                } else {
                    self.section_offsets@[i - 1]
                },
                first_of(i as int, check) is None,
                !(self.dim == 0 || self.dim > MAX_DIM),
                self.live_count <= self.count,
                self.entry_point is Some ==> self.entry_point->0 < self.count,
                self.entry_point is None ==> self.count == 0,
                !(self.m == 0 || self.max_degree0 < self.m),
                self.ef_construction != 0,
            decreases SECTION_COUNT - i,
        {
            let section = Section::ALL[i];
            let offset: u64 = self.section_offsets[i];
            if offset < previous {
                proof {
                    lemma_first_hit(6, check, i as int);
                }
                return Err(
                    SnapshotError::SectionsOutOfOrder { section: section.name(), offset, previous },
                );
            }
            if offset > self.body_len {
                proof {
                    lemma_first_hit(6, check, i as int);
                }
                return Err(
                    SnapshotError::SectionOutOfRange {
                        section: section.name(),
                        offset,
                        body_len: self.body_len,
                    },
                );
            }
            if offset % 4 != 0 {
                proof {
                    lemma_first_hit(6, check, i as int);
                }
                return Err(
                    SnapshotError::SectionMisaligned {
                        section: section.name(),
                        offset,
                        align: SECTION_ALIGN,
                    },
                );
            }
            previous = offset;
            i += 1;
        }
        Ok(())
    }

    /// Byte range of `section` within the body: the last section runs to the end of it, every
    /// other one ends where the next begins.
    pub fn section_range(&self, section: Section) -> (r: std::ops::Range<usize>)
        requires
            section_start_of(*self, section) <= usize::MAX,
            section_end_of(*self, section) <= usize::MAX,
        ensures
            r.start == section_start_of(*self, section),
            r.end == section_end_of(*self, section),
    {
        let i: usize = section.index();
        let start: u64 = self.section_offsets[i];
        let end: u64 = if i == 5 {
            self.body_len
        } else {
            self.section_offsets[i + 1]
        };
        start as usize..end as usize
    }

    /// Where the body starts in the file.
    pub fn body_start() -> (r: usize)
        ensures
            r == HEADER_BYTES,
    {
        HEADER_BYTES
    }
}

} // verus!
