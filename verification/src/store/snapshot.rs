//! Writing an index as bytes and reading it back.
//!
//! The body follows the header's six sections, each padded to a multiple of
//! [`crate::store::header::SECTION_ALIGN`]:
//!
//! ```text
//! Vectors      count x dim x f32
//! NodeLevels   count x u8            highest layer each node reaches
//! Layers       layer 0: adjacency only, its slot index is the node id
//!              layer n: node_count u32, then node_count x NodeId, then adjacency
//! Tombstones   empty
//! IdMap        empty
//! Metadata     empty
//! ```
//!
//! The table from nodes to slots is not stored, since it is the inverse of the slot list. Neither
//! are the sizes of the sections: the reader works out what they have to be, and takes a
//! disagreement for a damaged file.

use vstd::prelude::*;

use crate::error::IndexError;
use crate::first::{first_of, lemma_first_none, lemma_first_same};
use crate::hnsw::index::{
    layers_fit, parts_error, stored_layer_check, unknown_node_check, HnswIndex, IndexParts,
};
use crate::hnsw::layer::{self, shape_error, Layer};
use crate::hnsw::params::{params_error, HnswParams};
use crate::hnsw::select::SelectionPolicy;
use crate::store::bytes::{
    self, crc32, crc32_of, le32, push_bytes, push_u32, push_words, read_u32, read_words, value32,
    word_bytes, words_of,
};
use crate::store::error::SnapshotError;
use crate::store::header::{
    self, decoded, header_bytes, header_error, section_end_of, section_index, section_name,
    section_start_of, HeaderFlags, Section, SnapshotHeader, HEADER_BYTES, SECTION_ALIGN,
};
use crate::vector_store::{self, VectorStore};
use crate::NodeId;

verus! {

/// How much of a snapshot to check when it is read.
#[derive(Clone, Copy, Debug, PartialEq, Eq, Structural)]
pub enum Verify {
    /// The header checksum only.
    Header,
    /// Also the checksum of the body, which takes a pass over all of it.
    Body,
}

impl Default for Verify {
    fn default() -> (r: Self)
        ensures
            r == Verify::Header,
    {
        Verify::Header
    }
}

/// A layer as a snapshot holds it: its slot table, empty for layer 0, and its adjacency.
pub struct StoredLayer {
    pub nodes: Seq<NodeId>,
    pub raw: Seq<NodeId>,
}

/// What a snapshot says.
pub struct Contents {
    pub header: SnapshotHeader,
    pub vectors: Seq<u32>,
    pub levels: Seq<u8>,
    pub layers: Seq<StoredLayer>,
}

pub open spec fn stored(layer: Layer) -> StoredLayer {
    StoredLayer { nodes: layer.table(), raw: layer.raw() }
}

/// How many bytes bring a length up to a multiple of the alignment.
pub open spec fn padding(len: int) -> int {
    (4 - len % 4) % 4
}

pub open spec fn aligned(len: int) -> int {
    len + padding(len)
}

/// A section: its content, zero-filled to the alignment.
pub open spec fn padded(content: Seq<u8>) -> Seq<u8> {
    content + Seq::new(padding(content.len() as int) as nat, |i: int| 0u8)
}

/// Layer `l` in the layers section.
pub open spec fn layer_part(l: int, layer: StoredLayer) -> Seq<u8> {
    if l == 0 {
        word_bytes(layer.raw)
    } else {
        le32(layer.nodes.len() as u32) + word_bytes(layer.nodes) + word_bytes(layer.raw)
    }
}

/// The layers one after the other, layer 0 first.
pub open spec fn layers_part(layers: Seq<StoredLayer>) -> Seq<u8>
    decreases layers.len(),
{
    if layers.len() == 0 {
        Seq::empty()
    } else {
        layers_part(layers.drop_last()) + layer_part(layers.len() - 1, layers.last())
    }
}

/// The degree cap that a header gives layer `l`.
pub open spec fn header_cap(h: SnapshotHeader, l: int) -> int {
    if l == 0 {
        h.max_degree0 as int
    } else {
        h.m as int
    }
}

/// The next `len` bytes of the layers section, which has to have as many.
pub open spec fn taken(s: Seq<u8>, pos: int, len: int) -> Result<Seq<u8>, SnapshotError> {
    if len > s.len() - pos {
        Err(
            SnapshotError::SectionSizeMismatch {
                section: section_name(2),
                found: (s.len() - pos) as usize,
                expected: len as usize,
            },
        )
    } else {
        Ok(s.subrange(pos, pos + len))
    }
}

/// The adjacency of `slots` slots at `pos`, and with it the layer, if its two arrays make one.
pub open spec fn adjacency_at(
    s: Seq<u8>,
    pos: int,
    l: int,
    cap: int,
    nodes: Seq<NodeId>,
    slots: int,
) -> Result<(StoredLayer, int), SnapshotError> {
    let len = 4 * (slots * (cap + 1));
    match taken(s, pos, len) {
        Err(e) => Err(e),
        Ok(raw) => match shape_error(cap as usize, l == 0, nodes, words_of(raw)) {
            Some(e) => Err(SnapshotError::Index(IndexError::LayerShape(e))),
            None => Ok((StoredLayer { nodes, raw: words_of(raw) }, pos + len)),
        },
    }
}

/// Layer `l` at `pos` of the layers section, and where the next one starts.
pub open spec fn layer_at(s: Seq<u8>, pos: int, l: int, cap: int, count: int) -> Result<
    (StoredLayer, int),
    SnapshotError,
> {
    if l == 0 {
        adjacency_at(s, pos, l, cap, Seq::empty(), count)
    } else {
        match taken(s, pos, 4) {
            Err(e) => Err(e),
            Ok(word) => {
                let slots = value32(word) as int;
                if slots > count {
                    Err(
                        SnapshotError::SectionSizeMismatch {
                            section: section_name(2),
                            found: slots as usize,
                            expected: count as usize,
                        },
                    )
                } else {
                    match taken(s, pos + 4, 4 * slots) {
                        Err(e) => Err(e),
                        Ok(table) => adjacency_at(
                            s,
                            pos + 4 + 4 * slots,
                            l,
                            cap,
                            words_of(table),
                            slots,
                        ),
                    }
                }
            },
        }
    }
}

/// The first `n` layers of the layers section, and where they end.
pub open spec fn layers_upto(s: Seq<u8>, h: SnapshotHeader, n: nat) -> Result<
    (Seq<StoredLayer>, int),
    SnapshotError,
>
    decreases n,
{
    if n == 0 {
        Ok((Seq::empty(), 0))
    } else {
        match layers_upto(s, h, (n - 1) as nat) {
            Err(e) => Err(e),
            Ok((layers, pos)) => match layer_at(
                s,
                pos,
                n - 1,
                header_cap(h, n - 1),
                h.count as int,
            ) {
                Err(e) => Err(e),
                Ok((layer, next)) => Ok((layers.push(layer), next)),
            },
        }
    }
}

/// All layers of the layers section, which nothing but padding may follow.
pub open spec fn layers_in(s: Seq<u8>, h: SnapshotHeader) -> Result<
    Seq<StoredLayer>,
    SnapshotError,
> {
    match layers_upto(s, h, (h.max_layer + 1) as nat) {
        Err(e) => Err(e),
        Ok((layers, end)) => if s.len() - end >= SECTION_ALIGN {
            Err(
                SnapshotError::SectionSizeMismatch {
                    section: section_name(2),
                    found: s.len() as usize,
                    expected: end as usize,
                },
            )
        } else {
            Ok(layers)
        },
    }
}

/// A section's content without its padding. A section is exactly as long as its content calls
/// for.
pub open spec fn section_content(
    body: Seq<u8>,
    h: SnapshotHeader,
    section: Section,
    content: int,
) -> Result<Seq<u8>, SnapshotError> {
    let start = section_start_of(h, section) as int;
    let found = section_end_of(h, section) - start;
    if found != aligned(content) {
        Err(
            SnapshotError::SectionSizeMismatch {
                section: section_name(section_index(section)),
                found: found as usize,
                expected: aligned(content) as usize,
            },
        )
    } else {
        Ok(body.subrange(start, start + content))
    }
}

/// What a valid header and its body say.
pub open spec fn body_contents(body: Seq<u8>, h: SnapshotHeader) -> Result<
    Contents,
    SnapshotError,
> {
    match params_error(h.m as int, h.max_degree0 as int, h.ef_construction as int) {
        Some(e) => Err(SnapshotError::Index(e)),
        None => match section_content(body, h, Section::NodeLevels, h.count as int) {
            Err(e) => Err(e),
            Ok(levels) => match layers_in(
                body.subrange(
                    section_start_of(h, Section::Layers) as int,
                    section_end_of(h, Section::Layers) as int,
                ),
                h,
            ) {
                Err(e) => Err(e),
                Ok(layers) => match section_content(
                    body,
                    h,
                    Section::Vectors,
                    4 * (h.count * h.dim),
                ) {
                    Err(e) => Err(e),
                    Ok(vectors) => Ok(
                        Contents { header: h, vectors: words_of(vectors), levels, layers },
                    ),
                },
            },
        },
    }
}

/// What the bytes of a snapshot say. Bytes after the body are not looked at.
pub open spec fn contents_of(s: Seq<u8>, verify: Verify) -> Result<Contents, SnapshotError> {
    match decoded(s) {
        Err(e) => Err(e),
        Ok(h) => if s.len() - HEADER_BYTES < h.body_len {
            Err(
                SnapshotError::BodyTruncated {
                    file_len: s.len() as u64,
                    body_len: h.body_len,
                    header_len: HEADER_BYTES,
                },
            )
        } else {
            let body = s.subrange(128, 128 + h.body_len);
            if verify == Verify::Body && crc32_of(body) != h.body_crc32 {
                Err(
                    SnapshotError::BodyChecksumMismatch {
                        stored: h.body_crc32,
                        computed: crc32_of(body),
                    },
                )
            } else {
                body_contents(body, h)
            }
        },
    }
}

/// Once a layer cannot be read, none of the rest is.
proof fn lemma_layers_stop(s: Seq<u8>, h: SnapshotHeader, n: nat, all: nat)
    requires
        n <= all,
        layers_upto(s, h, n) is Err,
    ensures
        layers_upto(s, h, all) == Err::<(Seq<StoredLayer>, int), SnapshotError>(
            layers_upto(s, h, n)->Err_0,
        ),
    decreases all - n,
{
    if n < all {
        lemma_layers_stop(s, h, n, (all - 1) as nat);
    }
}

/// Reads the layers section from front to back. Every read is checked against what is left.
struct Cursor<'a> {
    bytes: &'a [u8],
    pos: usize,
}

impl<'a> Cursor<'a> {
    spec fn wf(&self) -> bool {
        self.pos <= self.bytes@.len()
    }

    fn new(bytes: &'a [u8]) -> (r: Self)
        ensures
            r.wf(),
            r.bytes@ == bytes@,
            r.pos == 0,
    {
        Cursor { bytes, pos: 0 }
    }

    fn consumed(&self) -> (r: usize)
        ensures
            r == self.pos,
    {
        self.pos
    }

    fn remaining(&self) -> (r: usize)
        requires
            self.wf(),
        ensures
            r == self.bytes@.len() - self.pos,
    {
        self.bytes.len() - self.pos
    }

    fn take(&mut self, len: u64) -> (r: Result<&'a [u8], SnapshotError>)
        requires
            old(self).wf(),
        ensures
            final(self).wf(),
            final(self).bytes@ == old(self).bytes@,
            match r {
                Ok(out) => {
                    &&& taken(old(self).bytes@, old(self).pos as int, len as int) == Ok::<
                        Seq<u8>,
                        SnapshotError,
                    >(out@)
                    &&& final(self).pos == old(self).pos + len
                    &&& out@.len() == len
                },
                Err(e) => taken(old(self).bytes@, old(self).pos as int, len as int) == Err::<
                    Seq<u8>,
                    SnapshotError,
                >(e),
            },
    {
        if len > self.remaining() as u64 {
            return Err(
                SnapshotError::SectionSizeMismatch {
                    section: Section::Layers.name(),
                    found: self.remaining(),
                    expected: len as usize,
                },
            );
        }
        let total: usize = self.bytes.len();
        let end: usize = self.pos + len as usize;
        let out = vstd::slice::slice_subrange(self.bytes, self.pos, end);
        self.pos = end;
        Ok(out)
    }

    fn u32(&mut self) -> (r: Result<u32, SnapshotError>)
        requires
            old(self).wf(),
        ensures
            final(self).wf(),
            final(self).bytes@ == old(self).bytes@,
            match (r, taken(old(self).bytes@, old(self).pos as int, 4)) {
                (Ok(word), Ok(out)) => word == value32(out) && final(self).pos == old(self).pos + 4,
                (Err(e), Err(f)) => e == f,
                _ => false,
            },
    {
        match self.take(4) {
            Err(e) => Err(e),
            Ok(out) => {
                proof {
                    assert(out@.subrange(0, 4) =~= out@);
                }
                Ok(read_u32(out, 0))
            },
        }
    }

    fn u32_slice(&mut self, len: u64) -> (r: Result<Vec<u32>, SnapshotError>)
        requires
            old(self).wf(),
            4 * len <= u64::MAX,
        ensures
            final(self).wf(),
            final(self).bytes@ == old(self).bytes@,
            match (r, taken(old(self).bytes@, old(self).pos as int, 4 * len)) {
                (Ok(words), Ok(out)) => {
                    &&& words@ == words_of(out)
                    &&& words@.len() == len
                    &&& final(self).pos == old(self).pos + 4 * len
                },
                (Err(e), Err(f)) => e == f,
                _ => false,
            },
    {
        match self.take(4 * len) {
            Err(e) => Err(e),
            Ok(out) => Ok(read_words(out)),
        }
    }
}

/// A layer that was read is the stored one.
pub open spec fn restores(layer: Layer, l: int, h: SnapshotHeader, from: StoredLayer) -> bool {
    &&& layer.wf()
    &&& layer.cap() == header_cap(h, l)
    &&& layer.dense_spec() == (l == 0)
    &&& stored(layer) == from
}

proof fn lemma_stride_bounds(slots: int, cap: int)
    requires
        0 <= slots <= u32::MAX,
        0 <= cap <= u16::MAX,
    ensures
        0 <= slots * (cap + 1) <= 0x1_0000_0000_0000,
{
    assert(0 <= slots * (cap + 1) <= 0xFFFF_FFFF * 0x1_0000) by (nonlinear_arith)
        requires
            0 <= slots <= 0xFFFF_FFFF,
            0 <= cap + 1 <= 0x1_0000,
    ;
}

/// Reads the layer at the cursor.
fn read_layer(cursor: &mut Cursor, l: usize, h: &SnapshotHeader) -> (r: Result<
    Layer,
    SnapshotError,
>)
    requires
        old(cursor).wf(),
        u32::MAX < usize::MAX,
    ensures
        final(cursor).wf(),
        final(cursor).bytes@ == old(cursor).bytes@,
        match (
            r,
            layer_at(
                old(cursor).bytes@,
                old(cursor).pos as int,
                l as int,
                header_cap(*h, l as int),
                h.count as int,
            ),
        ) {
            (Ok(layer), Ok((from, next))) => {
                &&& restores(layer, l as int, *h, from)
                &&& final(cursor).pos == next
            },
            (Err(e), Err(f)) => e == f,
            _ => false,
        },
{
    let cap: usize = if l == 0 {
        h.max_degree0 as usize
    } else {
        h.m as usize
    };
    let ghost s = cursor.bytes@;
    let ghost at = cursor.pos as int;
    let mut nodes: Vec<u32> = Vec::new();
    let mut slots: u64 = h.count as u64;
    if l > 0 {
        let count: u32 = match cursor.u32() {
            Err(e) => {
                return Err(e);
            },
            Ok(word) => word,
        };
        slots = count as u64;
        if count > h.count {
            return Err(
                SnapshotError::SectionSizeMismatch {
                    section: Section::Layers.name(),
                    found: count as usize,
                    expected: h.count as usize,
                },
            );
        }
        nodes = match cursor.u32_slice(slots) {
            Err(e) => {
                return Err(e);
            },
            Ok(words) => words,
        };
    } else {
        proof {
            assert(nodes@ =~= Seq::empty());
        }
    }
    proof {
        lemma_stride_bounds(slots as int, cap as int);
        layer::lemma_exact_division(slots as int, cap + 1);
    }
    let neighbors = match cursor.u32_slice(slots * (cap as u64 + 1)) {
        Err(e) => {
            return Err(e);
        },
        Ok(words) => words,
    };
    let ghost from = StoredLayer { nodes: nodes@, raw: neighbors@ };
    match Layer::from_parts(cap, l == 0, nodes, neighbors) {
        Err(e) => Err(SnapshotError::Index(IndexError::LayerShape(e))),
        Ok(layer) => {
            proof {
                assert(stored(layer) == from);
            }
            Ok(layer)
        },
    }
}

/// Reads the layers section as far as the header says it goes, and requires that nothing but
/// padding is left.
fn read_layers(section: &[u8], h: &SnapshotHeader) -> (r: Result<Vec<Layer>, SnapshotError>)
    requires
        u32::MAX < usize::MAX,
    ensures
        match (r, layers_in(section@, *h)) {
            (Ok(layers), Ok(from)) => {
                &&& layers@.len() == h.max_layer + 1
                &&& from.len() == layers@.len()
                &&& forall|l: int|
                    0 <= l < layers@.len() ==> restores(#[trigger] layers@[l], l, *h, from[l])
            },
            (Err(e), Err(f)) => e == f,
            _ => false,
        },
{
    let mut cursor = Cursor::new(section);
    let total: usize = h.max_layer as usize + 1;
    let mut layers: Vec<Layer> = Vec::with_capacity(total);
    let ghost mut from: Seq<StoredLayer> = Seq::empty();
    let mut l: usize = 0;
    while l < total
        invariant
            l <= total,
            total == h.max_layer + 1,
            u32::MAX < usize::MAX,
            cursor.wf(),
            cursor.bytes@ == section@,
            layers_upto(section@, *h, l as nat) == Ok::<(Seq<StoredLayer>, int), SnapshotError>(
                (from, cursor.pos as int),
            ),
            from.len() == l,
            layers@.len() == l,
            forall|k: int| 0 <= k < l ==> restores(#[trigger] layers@[k], k, *h, from[k]),
        decreases total - l,
    {
        let ghost next = layer_at(
            section@,
            cursor.pos as int,
            l as int,
            header_cap(*h, l as int),
            h.count as int,
        );
        match read_layer(&mut cursor, l, h) {
            Err(e) => {
                proof {
                    assert(layers_upto(section@, *h, (l + 1) as nat) is Err);
                    lemma_layers_stop(section@, *h, (l + 1) as nat, total as nat);
                }
                return Err(e);
            },
            Ok(layer) => {
                proof {
                    from = from.push(next->Ok_0.0);
                }
                layers.push(layer);
            },
        }
        l += 1;
    }
    if cursor.remaining() >= SECTION_ALIGN {
        return Err(
            SnapshotError::SectionSizeMismatch {
                section: Section::Layers.name(),
                found: section.len(),
                expected: cursor.consumed(),
            },
        );
    }
    Ok(layers)
}

fn params_from(h: &SnapshotHeader) -> (r: Result<HnswParams, SnapshotError>)
    requires
        header_error(*h) is None,
    ensures
        match (r, params_error(h.m as int, h.max_degree0 as int, h.ef_construction as int)) {
            (Ok(p), None) => params_restored(p, *h),
            (Err(e), Some(f)) => e == SnapshotError::Index(f),
            _ => false,
        },
{
    let p = match HnswParams::new(h.m as usize) {
        Err(e) => {
            return Err(SnapshotError::Index(e));
        },
        Ok(p) => p,
    };
    let p = match p.with_max_degree0(h.max_degree0 as usize) {
        Err(e) => {
            return Err(SnapshotError::Index(e));
        },
        Ok(p) => p,
    };
    let p = match p.with_ef_construction(h.ef_construction as usize) {
        Err(e) => {
            return Err(SnapshotError::Index(e));
        },
        Ok(p) => p,
    };
    let p = match p.with_seed(h.rng_seed) {
        Err(e) => {
            return Err(SnapshotError::Index(e));
        },
        Ok(p) => p,
    };
    let selection = SelectionPolicy {
        heuristic: h.flags.heuristic,
        keep_pruned: h.flags.keep_pruned,
    };
    match p.with_selection(selection) {
        Err(e) => Err(SnapshotError::Index(e)),
        Ok(p) => Ok(p),
    }
}

/// The parameters are those that the header records.
pub open spec fn params_restored(p: HnswParams, h: SnapshotHeader) -> bool {
    &&& p.wf()
    &&& p.links() == h.m
    &&& p.base_cap() == h.max_degree0
    &&& p.width() == h.ef_construction
    &&& p.origin() == h.rng_seed
    &&& p.policy() == (SelectionPolicy {
        heuristic: h.flags.heuristic,
        keep_pruned: h.flags.keep_pruned,
    })
}

/// Where a section's content starts in the body, given how long it has to be.
fn section_start(h: &SnapshotHeader, section: Section, content: u64) -> (r: Result<
    usize,
    SnapshotError,
>)
    requires
        header_error(*h) is None,
        h.body_len <= usize::MAX,
        content <= 0x1_0000_0000_0000,
    ensures
        match r {
            Ok(start) => {
                &&& start == section_start_of(*h, section)
                &&& section_end_of(*h, section) - start == aligned(content as int)
                &&& start + content <= h.body_len
            },
            Err(e) => {
                &&& section_end_of(*h, section) - section_start_of(*h, section) != aligned(
                    content as int,
                )
                &&& e == (SnapshotError::SectionSizeMismatch {
                    section: section_name(section_index(section)),
                    found: (section_end_of(*h, section) - section_start_of(
                        *h,
                        section,
                    )) as usize,
                    expected: aligned(content as int) as usize,
                })
            },
        },
{
    proof {
        header::lemma_sections_tile(*h, section);
    }
    let range = h.section_range(section);
    let found: usize = range.end - range.start;
    let expected: u64 = content + (4 - content % 4) % 4;
    if found as u64 != expected {
        return Err(
            SnapshotError::SectionSizeMismatch {
                section: section.name(),
                found,
                expected: expected as usize,
            },
        );
    }
    Ok(range.start)
}

/// Everything decoded from a snapshot except the vectors, which the two readers obtain
/// differently.
struct Parsed {
    header: SnapshotHeader,
    params: HnswParams,
    node_levels: Vec<u8>,
    layers: Vec<Layer>,
    /// Offset of the vectors in the body.
    vectors_start: usize,
}

impl Parsed {
    spec fn says(&self, s: Seq<u8>, c: Contents) -> bool {
        let words = c.header.count * c.header.dim;
        &&& self.header == c.header
        &&& header_error(c.header) is None
        &&& params_restored(self.params, c.header)
        &&& self.node_levels@ == c.levels
        &&& c.levels.len() == c.header.count
        &&& self.layers@.len() == c.layers.len()
        &&& c.layers.len() == c.header.max_layer + 1
        &&& forall|l: int|
            0 <= l < self.layers@.len() ==> restores(
                #[trigger] self.layers@[l],
                l,
                c.header,
                c.layers[l],
            )
        &&& self.vectors_start == section_start_of(c.header, Section::Vectors)
        &&& 128 + self.vectors_start + 4 * words <= s.len()
        &&& c.vectors == words_of(
            s.subrange(128 + self.vectors_start, 128 + self.vectors_start + 4 * words),
        )
    }
}

fn parse(bytes: &[u8], verify: Verify) -> (r: Result<Parsed, SnapshotError>)
    requires
        u32::MAX < usize::MAX,
    ensures
        match (r, contents_of(bytes@, verify)) {
            (Ok(parsed), Ok(c)) => parsed.says(bytes@, c),
            (Err(e), Err(f)) => e == f,
            _ => false,
        },
{
    let h = match SnapshotHeader::decode(bytes) {
        Err(e) => {
            return Err(e);
        },
        Ok(h) => h,
    };
    let total: usize = bytes.len();
    if ((total - HEADER_BYTES) as u64) < h.body_len {
        return Err(
            SnapshotError::BodyTruncated {
                file_len: total as u64,
                body_len: h.body_len,
                header_len: HEADER_BYTES,
            },
        );
    }
    let body = vstd::slice::slice_subrange(
        bytes,
        HEADER_BYTES,
        HEADER_BYTES + h.body_len as usize,
    );
    if verify == Verify::Body {
        let computed: u32 = crc32(body);
        if computed != h.body_crc32 {
            return Err(
                SnapshotError::BodyChecksumMismatch { stored: h.body_crc32, computed },
            );
        }
    }
    let params = match params_from(&h) {
        Err(e) => {
            return Err(e);
        },
        Ok(params) => params,
    };
    proof {
        header::lemma_sections_tile(h, Section::NodeLevels);
        header::lemma_sections_tile(h, Section::Layers);
        header::lemma_sections_tile(h, Section::Vectors);
        assert(0 <= h.count * h.dim <= 0xFFFF_FFFF * 0x1000) by (nonlinear_arith)
            requires
                0 <= h.count <= 0xFFFF_FFFF,
                0 <= h.dim <= 0x1000,
        ;
    }
    let levels_start: usize = match section_start(&h, Section::NodeLevels, h.count as u64) {
        Err(e) => {
            return Err(e);
        },
        Ok(start) => start,
    };
    let node_levels = vstd::slice::slice_to_vec(
        vstd::slice::slice_subrange(body, levels_start, levels_start + h.count as usize),
    );
    let range = h.section_range(Section::Layers);
    let layers = match read_layers(
        vstd::slice::slice_subrange(body, range.start, range.end),
        &h,
    ) {
        Err(e) => {
            return Err(e);
        },
        Ok(layers) => layers,
    };
    let vectors_start: usize = match section_start(
        &h,
        Section::Vectors,
        4 * (h.count as u64 * h.dim as u64),
    ) {
        Err(e) => {
            return Err(e);
        },
        Ok(start) => start,
    };
    let parsed = Parsed { header: h, params, node_levels, layers, vectors_start };
    proof {
        let words = h.count * h.dim;
        assert(body@.subrange(vectors_start as int, vectors_start + 4 * words)
            =~= bytes@.subrange(128 + vectors_start, 128 + vectors_start + 4 * words));
    }
    Ok(parsed)
}

/// A node of a stored layer that the snapshot has no vector for.
pub open spec fn stray_node(layer: StoredLayer, l: int, count: int) -> spec_fn(int) -> Option<
    IndexError,
> {
    |i: int|
        if layer.nodes[i] >= count {
            Some(IndexError::UnknownNode { layer: l as usize, node: layer.nodes[i] })
        } else {
            None
        }
}

pub open spec fn stray_nodes(layers: Seq<StoredLayer>, count: int) -> spec_fn(int) -> Option<
    IndexError,
> {
    |l: int| first_of(layers[l].nodes.len() as int, stray_node(layers[l], l, count))
}

/// Why contents that could be read do not make an index, if they do not.
pub open spec fn contents_error(c: Contents) -> Option<IndexError> {
    if c.header.count == 0 && c.header.max_layer != 0 {
        Some(
            IndexError::PartMismatch {
                part: "max_layer",
                found: c.header.max_layer as usize,
                expected: 0,
            },
        )
    } else {
        first_of(c.layers.len() as int, stray_nodes(c.layers, c.header.count as int))
    }
}

/// The index is the one that the contents describe.
pub open spec fn index_holds(index: HnswIndex, c: Contents) -> bool {
    &&& index.wf()
    &&& index.store().flat() == c.vectors
    &&& index@.vecs.len() == c.header.count
    &&& index.width() == c.header.dim
    &&& params_restored(index.settings(), c.header)
    &&& index.kind() == c.header.metric
    &&& index@.levels == c.levels
    &&& index@.entry == c.header.entry_point
    &&& index@.top == c.header.max_layer
    &&& index.level_state().2 == c.header.levels_drawn
    &&& index.all_layers().len() == c.layers.len()
    &&& forall|l: int|
        0 <= l < c.layers.len() ==> restores(
            #[trigger] index.all_layers()[l],
            l,
            c.header,
            c.layers[l],
        )
}

/// What is wrong with the layers of a snapshot is what is wrong with them as parts of an index.
proof fn lemma_contents_error(c: Contents, params: HnswParams, layers: Seq<Layer>)
    requires
        header_error(c.header) is None,
        params_restored(params, c.header),
        c.levels.len() == c.header.count,
        c.layers.len() == c.header.max_layer + 1,
        layers.len() == c.layers.len(),
        layers[0].slots() == c.header.count,
        forall|l: int|
            0 <= l < layers.len() ==> restores(#[trigger] layers[l], l, c.header, c.layers[l]),
    ensures
        parts_error(
            c.header.count as nat,
            params,
            layers,
            c.levels.len(),
            c.header.entry_point,
            c.header.max_layer as int,
        ) == contents_error(c),
{
    let size = c.header.count as nat;
    let check = stored_layer_check(layers, params, size);
    let other = stray_nodes(c.layers, size as int);
    assert forall|l: int| 0 <= l < layers.len() implies (#[trigger] check(l)) == other(l) by {
        let layer = layers[l];
        assert(restores(layer, l, c.header, c.layers[l]));
        let inner = unknown_node_check(layer, l, size);
        layer.lemma_order();
        if l == 0 {
            assert forall|i: int| 0 <= i < layer.order().len() implies (#[trigger] inner(
                i,
            )) is None by {
                assert(layer.order()[i] < size);
            }
            lemma_first_none(layer.order().len() as int, inner);
            layer.lemma_table();
            assert(other(0) is None);
        } else {
            lemma_first_same(
                layer.order().len() as int,
                inner,
                stray_node(c.layers[l], l, size as int),
            );
        }
    }
    lemma_first_same(layers.len() as int, check, other);
}

impl Parsed {
    /// Puts the index together around the vectors.
    fn into_index<'a>(self, vectors: VectorStore<'a>, Ghost(s): Ghost<Seq<u8>>, Ghost(c): Ghost<
        Contents,
    >) -> (r: Result<HnswIndex<'a>, SnapshotError>)
        requires
            self.says(s, c),
            vectors.wf(),
            vectors.flat() == c.vectors,
            vectors.size() == c.header.count,
            vectors.width() == c.header.dim,
            self.layers@[0].slots() == c.header.count,
        ensures
            match r {
                Ok(index) => {
                    &&& contents_error(c) is None
                    &&& index_holds(index, c)
                    &&& index.store() == vectors
                },
                Err(e) => contents_error(c) is Some && e == SnapshotError::Index(
                    contents_error(c)->0,
                ),
            },
    {
        proof {
            lemma_contents_error(c, self.params, self.layers@);
            assert forall|l: int| 0 <= l < self.layers@.len() implies (
            #[trigger] self.layers@[l]).wf() by {
                assert(restores(self.layers@[l], l, c.header, c.layers[l]));
            }
        }
        let ghost layers = self.layers@;
        let parts = IndexParts {
            vectors,
            params: self.params,
            metric: self.header.metric,
            layers: self.layers,
            node_levels: self.node_levels,
            entry_point: self.header.entry_point,
            max_layer: self.header.max_layer as usize,
            levels_drawn: self.header.levels_drawn,
        };
        match HnswIndex::from_parts(parts) {
            Err(e) => Err(SnapshotError::Index(e)),
            Ok(index) => {
                proof {
                    index.lemma_wf();
                    assert(index.all_layers() == layers);
                }
                Ok(index)
            },
        }
    }
}

/// Why a snapshot cannot be read into memory, if it cannot.
pub open spec fn read_error(s: Seq<u8>, verify: Verify) -> Option<SnapshotError> {
    match contents_of(s, verify) {
        Err(e) => Some(e),
        Ok(c) => match VectorStore::flat_error(c.header.dim as int, c.vectors) {
            Some(e) => Some(SnapshotError::Vector(e)),
            None => match contents_error(c) {
                Some(e) => Some(SnapshotError::Index(e)),
                None => None,
            },
        },
    }
}

/// Why a snapshot cannot be mapped, if it cannot. What the vectors hold is not looked at.
pub open spec fn load_error(s: Seq<u8>, verify: Verify) -> Option<SnapshotError> {
    match contents_of(s, verify) {
        Err(e) => Some(e),
        Ok(c) => match contents_error(c) {
            Some(e) => Some(SnapshotError::Index(e)),
            None => None,
        },
    }
}

/// Layer 0 has a slot for every vector.
proof fn lemma_base_layer(s: Seq<u8>, h: SnapshotHeader, layer: Layer)
    requires
        layers_in(s, h) is Ok,
        restores(layer, 0, h, layers_in(s, h)->Ok_0[0]),
    ensures
        layer.slots() == h.count,
{
    let total = (h.max_layer + 1) as nat;
    let layers = layers_in(s, h)->Ok_0;
    lemma_layers_grow(s, h, 1, total);
    let first = layer_at(s, 0, 0, header_cap(h, 0), h.count as int);
    reveal_with_fuel(layers_upto, 2);
    assert(layers_upto(s, h, 1)->Ok_0.0[0] == first->Ok_0.0);
    let len = h.count * (h.max_degree0 + 1);
    assert(len >= 0) by (nonlinear_arith)
        requires
            len == h.count * (h.max_degree0 + 1),
            h.count >= 0,
            h.max_degree0 >= 0,
    ;
    assert(layers[0].raw.len() == len);
    layer.lemma_raw_len();
    layer.lemma_dense_dom();
    layer::lemma_exact_division(layer.slots(), h.max_degree0 + 1);
    layer::lemma_exact_division(h.count as int, h.max_degree0 + 1);
}

/// What is read of a layer does not depend on how many come after it.
proof fn lemma_layers_grow(s: Seq<u8>, h: SnapshotHeader, n: nat, all: nat)
    requires
        n <= all,
        layers_upto(s, h, all) is Ok,
    ensures
        layers_upto(s, h, n) is Ok,
        layers_upto(s, h, n)->Ok_0.0 == layers_upto(s, h, all)->Ok_0.0.take(n as int),
        layers_upto(s, h, all)->Ok_0.0.len() == all,
    decreases all,
{
    if n < all {
        lemma_layers_grow(s, h, n, (all - 1) as nat);
        assert(layers_upto(s, h, n)->Ok_0.0 =~= layers_upto(s, h, all)->Ok_0.0.take(n as int));
    } else {
        if all > 0 {
            lemma_layers_grow(s, h, (all - 1) as nat, (all - 1) as nat);
        }
        assert(layers_upto(s, h, n)->Ok_0.0 =~= layers_upto(s, h, all)->Ok_0.0.take(n as int));
    }
}

/// The words of a part of a sequence are a part of its words.
proof fn lemma_words_within(s: Seq<u8>, from: int, count: int)
    requires
        0 <= from,
        0 <= count,
        4 * (from + count) <= s.len(),
    ensures
        words_of(s.subrange(4 * from, 4 * (from + count))) == words_of(s).subrange(
            from,
            from + count,
        ),
{
    let part = s.subrange(4 * from, 4 * (from + count));
    assert forall|i: int| 0 <= i < count implies words_of(part)[i] == words_of(s)[from + i] by {
        assert(part.subrange(4 * i, 4 * i + 4) =~= s.subrange(
            4 * (from + i),
            4 * (from + i) + 4,
        ));
    }
    assert(words_of(part) =~= words_of(s).subrange(from, from + count));
}

/// Reads a snapshot, vectors included.
pub fn read<'a>(bytes: &[u8], verify: Verify) -> (r: Result<HnswIndex<'a>, SnapshotError>)
    requires
        u32::MAX < usize::MAX,
    ensures
        match r {
            Ok(index) => {
                &&& read_error(bytes@, verify) is None
                &&& index_holds(index, contents_of(bytes@, verify)->Ok_0)
                &&& !index.store().reads_mapping()
            },
            Err(e) => read_error(bytes@, verify) == Some(e),
        },
{
    let parsed = match parse(bytes, verify) {
        Err(e) => {
            return Err(e);
        },
        Ok(parsed) => parsed,
    };
    let ghost c = contents_of(bytes@, verify)->Ok_0;
    let total: usize = bytes.len();
    let count: usize = parsed.header.count as usize;
    let dim: usize = parsed.header.dim as usize;
    let start: usize = HEADER_BYTES + parsed.vectors_start;
    proof {
        assert(0 <= count * dim <= 0xFFFF_FFFF * 0x1000) by (nonlinear_arith)
            requires
                0 <= count <= 0xFFFF_FFFF,
                0 <= dim <= 0x1000,
        ;
        lemma_parsed_base(bytes@, verify, parsed);
    }
    let flat = read_words(
        vstd::slice::slice_subrange(bytes, start, start + 4 * (count * dim)),
    );
    let vectors = match VectorStore::from_flat(dim, flat) {
        Err(e) => {
            return Err(SnapshotError::Vector(e));
        },
        Ok(vectors) => vectors,
    };
    proof {
        layer::lemma_exact_division(count as int, dim as int);
    }
    parsed.into_index(vectors, Ghost(bytes@), Ghost(c))
}

proof fn lemma_parsed_base(s: Seq<u8>, verify: Verify, parsed: Parsed)
    requires
        contents_of(s, verify) is Ok,
        parsed.says(s, contents_of(s, verify)->Ok_0),
    ensures
        parsed.layers@[0].slots() == parsed.header.count,
{
    let c = contents_of(s, verify)->Ok_0;
    let h = c.header;
    let body = s.subrange(128, 128 + h.body_len);
    let section = body.subrange(
        section_start_of(h, Section::Layers) as int,
        section_end_of(h, Section::Layers) as int,
    );
    assert(restores(parsed.layers@[0], 0, h, c.layers[0]));
    lemma_base_layer(section, h, parsed.layers@[0]);
}

/// What loading these bytes gives: the index that they hold, which reads its vectors where they
/// lie, or the reason that there is none.
pub open spec fn loads(
    r: Result<HnswIndex, SnapshotError>,
    bytes: Seq<u8>,
    verify: Verify,
) -> bool {
    match r {
        Ok(index) => {
            &&& load_error(bytes, verify) is None
            &&& index_holds(index, contents_of(bytes, verify)->Ok_0)
            &&& index.store().reads_mapping()
            &&& index.store().mapped() == index@.vecs.len()
        },
        Err(e) => load_error(bytes, verify) == Some(e),
    }
}

/// Rebuilds an index from a snapshot without copying its vectors: they stay in `words`, which
/// holds the same file as `bytes`.
#[verifier::rlimit(40)]
pub fn load<'a>(bytes: &[u8], words: &'a [u32], verify: Verify) -> (r: Result<
    HnswIndex<'a>,
    SnapshotError,
>)
    requires
        u32::MAX < usize::MAX,
        words@ == words_of(bytes@),
    ensures
        loads(r, bytes@, verify),
{
    let parsed = match parse(bytes, verify) {
        Err(e) => {
            return Err(e);
        },
        Ok(parsed) => parsed,
    };
    let ghost c = contents_of(bytes@, verify)->Ok_0;
    let total: usize = bytes.len();
    let count: usize = parsed.header.count as usize;
    let dim: usize = parsed.header.dim as usize;
    let start: usize = HEADER_BYTES + parsed.vectors_start;
    proof {
        assert(0 <= count * dim <= 0xFFFF_FFFF * 0x1000) by (nonlinear_arith)
            requires
                0 <= count <= 0xFFFF_FFFF,
                0 <= dim <= 0x1000,
        ;
        lemma_parsed_base(bytes@, verify, parsed);
        header::lemma_sections_tile(c.header, Section::Vectors);
        lemma_words_within(bytes@, start as int / 4, (count * dim) as int);
        assert(count * dim * 4 == 4 * (count * dim));
        assert(VectorStore::map_error(words@.len() as int, start as int, dim as int, count as int)
            is None);
    }
    let vectors = match VectorStore::from_mmap(words, start, dim, count) {
        Err(e) => {
            return Err(SnapshotError::Vector(e));
        },
        Ok(vectors) => vectors,
    };
    proof {
        if count == 0 {
            assert(count * dim == 0) by (nonlinear_arith)
                requires
                    count == 0,
            ;
            assert(c.vectors =~= Seq::empty());
        }
        assert(vectors.flat() == c.vectors);
        vectors.lemma_wf();
    }
    parsed.into_index(vectors, Ghost(bytes@), Ghost(c))
}

/// The header of a snapshot, which says among other things where the log picks up.
pub fn header(bytes: &[u8]) -> (r: Result<SnapshotHeader, SnapshotError>)
    ensures
        r == decoded(bytes@),
{
    SnapshotHeader::decode(bytes)
}

/// The last log record that a snapshot already contains.
pub fn wal_seq(bytes: &[u8]) -> (r: Result<u64, SnapshotError>)
    ensures
        match (r, decoded(bytes@)) {
            (Ok(seq), Ok(h)) => seq == h.wal_seq,
            (Err(e), Err(f)) => e == f,
            _ => false,
        },
{
    match header(bytes) {
        Err(e) => Err(e),
        Ok(h) => Ok(h.wal_seq),
    }
}

pub open spec fn stored_layers(layers: Seq<Layer>) -> Seq<StoredLayer> {
    Seq::new(layers.len(), |l: int| stored(layers[l]))
}

/// The body that an index is written as.
pub open spec fn body_for(index: HnswIndex) -> Seq<u8> {
    padded(word_bytes(index.store().flat())) + padded(index@.levels) + padded(
        layers_part(stored_layers(index.all_layers())),
    )
}

/// Where the sections of that body start: the vectors first, then the levels and the layers, and
/// three empty sections at the end.
pub open spec fn offsets_for(index: HnswIndex) -> [u64; 6] {
    let levels = aligned(4 * index.store().flat().len() as int);
    let layers = levels + aligned(index@.levels.len() as int);
    let end = layers + aligned(
        layers_part(stored_layers(index.all_layers())).len() as int,
    );
    [0u64, levels as u64, layers as u64, end as u64, end as u64, end as u64]
}

/// The header that an index is written with.
pub open spec fn header_for(index: HnswIndex, wal_seq: u64) -> SnapshotHeader {
    SnapshotHeader {
        dim: index.width() as u32,
        count: index@.vecs.len() as u32,
        live_count: index@.vecs.len() as u32,
        entry_point: index@.entry,
        rng_seed: index.settings().origin(),
        levels_drawn: index.level_state().2,
        wal_seq,
        m: index.settings().links() as u16,
        max_degree0: index.settings().base_cap() as u16,
        ef_construction: index.settings().width() as u16,
        metric: index.kind(),
        max_layer: index@.top as u8,
        section_offsets: offsets_for(index),
        body_len: body_for(index).len() as u64,
        body_crc32: crc32_of(body_for(index)),
        flags: HeaderFlags {
            heuristic: index.settings().policy().heuristic,
            keep_pruned: index.settings().policy().keep_pruned,
        },
    }
}

/// The bytes of a snapshot of `index` that contains the log up to `wal_seq`.
pub open spec fn snapshot_for(index: HnswIndex, wal_seq: u64) -> Seq<u8> {
    header_bytes(header_for(index, wal_seq)) + body_for(index)
}

/// Zero-fills up to the alignment.
fn pad(out: &mut Vec<u8>, Ghost(content): Ghost<Seq<u8>>, Ghost(before): Ghost<Seq<u8>>)
    requires
        before.len() % 4 == 0,
        old(out)@ == before + content,
    ensures
        final(out)@ == before + padded(content),
        final(out)@.len() % 4 == 0,
{
    let missing: usize = (4 - out.len() % 4) % 4;
    let mut i: usize = 0;
    proof {
        assert(padding(content.len() as int) == missing);
        assert(out@ =~= before + (content + Seq::new(0, |k: int| 0u8)));
    }
    while i < missing
        invariant
            i <= missing,
            out@ == before + (content + Seq::new(i as nat, |k: int| 0u8)),
        decreases missing - i,
    {
        out.push(0);
        i += 1;
        proof {
            assert(out@ =~= before + (content + Seq::new(i as nat, |k: int| 0u8)));
        }
    }
}

/// Appends the components of all vectors.
fn push_vectors(out: &mut Vec<u8>, vectors: &VectorStore)
    requires
        vectors.wf(),
    ensures
        final(out)@ == old(out)@ + word_bytes(vectors.flat()),
{
    if let Some(data) = vectors.as_contiguous() {
        push_words(out, data);
        return;
    }
    let ghost before = out@;
    let ghost flat = vectors.flat();
    let ghost dim = vectors.width() as int;
    let count: usize = vectors.len();
    let mut i: usize = 0;
    proof {
        vectors.lemma_wf();
        assert(out@ =~= before + word_bytes(flat.take(0)));
        assert(0 * dim == 0);
    }
    while i < count
        invariant
            i <= count,
            vectors.wf(),
            count == vectors.size(),
            flat == vectors.flat(),
            dim == vectors.width(),
            dim >= 1,
            flat.len() == count * dim,
            out@ == before + word_bytes(flat.take(i * dim)),
        decreases count - i,
    {
        push_words(out, vectors.get(i));
        proof {
            vectors.lemma_wf();
            vector_store::lemma_row_bounds(i as int, dim, count as int, flat.len() as int);
            assert((i + 1) * dim == i * dim + dim) by (nonlinear_arith);
            let row = flat.subrange(i * dim, (i + 1) * dim);
            assert(vectors.all()[i as int] =~= row);
            bytes::lemma_word_bytes_concat(flat.take(i * dim), row);
            assert(flat.take((i + 1) * dim) =~= flat.take(i * dim) + row);
            assert(out@ =~= before + word_bytes(flat.take((i + 1) * dim)));
        }
        i += 1;
    }
    proof {
        assert(flat.take(count * dim) =~= flat);
    }
}

/// Appends the layers.
fn push_layers(out: &mut Vec<u8>, layers: &[Layer])
    ensures
        final(out)@ == old(out)@ + layers_part(stored_layers(layers@)),
{
    let ghost before = out@;
    let ghost from = stored_layers(layers@);
    let mut l: usize = 0;
    proof {
        assert(out@ =~= before + layers_part(from.take(0)));
    }
    while l < layers.len()
        invariant
            l <= layers@.len(),
            from == stored_layers(layers@),
            out@ == before + layers_part(from.take(l as int)),
        decreases layers@.len() - l,
    {
        let layer = &layers[l];
        if l > 0 {
            let nodes = layer.slot_nodes();
            push_u32(out, nodes.len() as u32);
            push_words(out, nodes);
        }
        push_words(out, layer.raw_neighbors());
        proof {
            assert(from.take(l + 1).drop_last() =~= from.take(l as int));
            assert(from.take(l + 1).last() == stored(*layer));
            assert(out@ =~= before + layers_part(from.take(l + 1)));
        }
        l += 1;
    }
    proof {
        assert(from.take(layers@.len() as int) =~= from);
    }
}

/// The levels of all nodes.
fn levels_of(index: &HnswIndex) -> (r: Vec<u8>)
    requires
        index.wf(),
    ensures
        r@ == index@.levels,
{
    proof {
        index.lemma_wf();
    }
    let count: usize = index.len();
    let mut r: Vec<u8> = Vec::with_capacity(count);
    let mut i: usize = 0;
    while i < count
        invariant
            i <= count,
            count == index@.levels.len(),
            count <= u32::MAX,
            r@ == index@.levels.take(i as int),
        decreases count - i,
    {
        if let Some(level) = index.level_of(i as NodeId) {
            r.push(level as u8);
        }
        i += 1;
        proof {
            assert(r@ =~= index@.levels.take(i as int));
        }
    }
    proof {
        assert(r@ =~= index@.levels);
    }
    r
}

/// Why the header has no room for these parameters and this topmost layer, if it has none.
pub open spec fn write_error(params: HnswParams, top: int) -> Option<SnapshotError> {
    if params.base_cap() > u16::MAX {
        Some(
            SnapshotError::ParameterTooLarge {
                parameter: "max_degree0",
                value: params.base_cap() as usize,
                limit: 65535,
            },
        )
    } else if params.width() > u16::MAX {
        Some(
            SnapshotError::ParameterTooLarge {
                parameter: "ef_construction",
                value: params.width() as usize,
                limit: 65535,
            },
        )
    } else if top > u8::MAX {
        Some(
            SnapshotError::ParameterTooLarge {
                parameter: "max_layer",
                value: top as usize,
                limit: 255,
            },
        )
    } else {
        None
    }
}

/// Everything an index is made of has a place in a snapshot: its parameters and its number of
/// layers fit into the header, and the body's length can be written down.
pub open spec fn writable(index: HnswIndex) -> bool {
    &&& write_error(index.settings(), index@.top as int) is None
    &&& body_for(index).len() <= u64::MAX
}

/// Refuses parameters that a snapshot's header has no room for.
pub fn check_writable(params: &HnswParams, top: usize) -> (r: Result<(), SnapshotError>)
    requires
        params.wf(),
    ensures
        match r {
            Ok(_) => write_error(*params, top as int) is None,
            Err(e) => write_error(*params, top as int) == Some(e),
        },
{
    let cap: usize = params.max_degree0();
    if cap > 65535 {
        return Err(
            SnapshotError::ParameterTooLarge {
                parameter: "max_degree0",
                value: cap,
                limit: 65535,
            },
        );
    }
    let width: usize = params.ef_construction();
    if width > 65535 {
        return Err(
            SnapshotError::ParameterTooLarge {
                parameter: "ef_construction",
                value: width,
                limit: 65535,
            },
        );
    }
    if top > 255 {
        return Err(
            SnapshotError::ParameterTooLarge { parameter: "max_layer", value: top, limit: 255 },
        );
    }
    Ok(())
}

/// A snapshot of `index`, to be put in a file under a temporary name and renamed once it is
/// durable. `wal_seq` is the last log record that the index contains.
pub fn write(index: &HnswIndex, wal_seq: u64) -> (r: Result<Vec<u8>, SnapshotError>)
    requires
        index.wf(),
    ensures
        r is Ok == writable(*index),
        match r {
            Ok(bytes) => bytes@ == snapshot_for(*index, wal_seq),
            Err(e) => write_error(index.settings(), index@.top as int) == Some(e),
        },
{
    proof {
        index.lemma_wf();
    }
    match check_writable(index.params(), index.max_layer()) {
        Err(e) => {
            return Err(e);
        },
        Ok(_) => {},
    }
    proof {
        index.lemma_wf();
        bytes::lemma_words_round_trip(index.store().flat());
    }
    let ghost vectors = word_bytes(index.store().flat());
    let ghost layers = layers_part(stored_layers(index.all_layers()));
    let ghost first = padded(vectors);
    let ghost second = first + padded(index@.levels);
    let mut body: Vec<u8> = Vec::new();
    push_vectors(&mut body, index.vectors());
    proof {
        assert(body@ =~= Seq::<u8>::empty() + vectors);
    }
    pad(&mut body, Ghost(vectors), Ghost(Seq::empty()));
    proof {
        assert(body@ =~= first);
    }
    let levels_at: usize = body.len();
    push_bytes(&mut body, levels_of(index).as_slice());
    pad(&mut body, Ghost(index@.levels), Ghost(first));
    let layers_at: usize = body.len();
    push_layers(&mut body, index.layers());
    pad(&mut body, Ghost(layers), Ghost(second));
    let end: usize = body.len();
    proof {
        assert(body@ =~= body_for(*index));
    }
    let params = index.params();
    let selection = params.selection();
    let header = SnapshotHeader {
        dim: index.dim() as u32,
        count: index.len() as u32,
        live_count: index.len() as u32,
        entry_point: index.entry_point(),
        rng_seed: params.seed(),
        levels_drawn: index.levels_drawn(),
        wal_seq,
        m: params.m() as u16,
        max_degree0: params.max_degree0() as u16,
        ef_construction: params.ef_construction() as u16,
        metric: index.metric(),
        max_layer: index.max_layer() as u8,
        section_offsets: [
            0,
            levels_at as u64,
            layers_at as u64,
            end as u64,
            end as u64,
            end as u64,
        ],
        body_len: end as u64,
        body_crc32: crc32(body.as_slice()),
        flags: HeaderFlags {
            heuristic: selection.heuristic,
            keep_pruned: selection.keep_pruned,
        },
    };
    proof {
        assert(header.section_offsets@ =~= offsets_for(*index)@);
        assert(header.section_offsets =~= offsets_for(*index));
        assert(header == header_for(*index, wal_seq));
    }
    let encoded = header.encode();
    let mut out: Vec<u8> = Vec::with_capacity(HEADER_BYTES);
    push_bytes(&mut out, &encoded);
    push_bytes(&mut out, body.as_slice());
    proof {
        assert(out@ =~= snapshot_for(*index, wal_seq));
    }
    Ok(out)
}

/// A layer comes back from where it was written.
proof fn lemma_layer_reads_back(s: Seq<u8>, pos: int, l: int, layer: Layer, count: int)
    requires
        layer.wf(),
        0 <= pos,
        0 <= l,
        layer.dense_spec() == (l == 0),
        l == 0 ==> layer.slots() == count,
        layer.slots() <= count <= u32::MAX,
        layer.cap() <= u16::MAX,
        pos + layer_part(l, stored(layer)).len() <= s.len(),
        s.subrange(pos, pos + layer_part(l, stored(layer)).len()) == layer_part(l, stored(layer)),
    ensures
        layer_at(s, pos, l, layer.cap() as int, count) == Ok::<(StoredLayer, int), SnapshotError>(
            (stored(layer), pos + layer_part(l, stored(layer)).len()),
        ),
{
    let from = stored(layer);
    let cap = layer.cap() as int;
    let part = layer_part(l, from);
    let slots = layer.slots();
    let len = 4 * (slots * (cap + 1));
    layer.lemma_raw_len();
    layer.lemma_table();
    layer.lemma_dense_dom();
    layer::lemma_layer_round_trip(&layer, &layer);
    bytes::lemma_words_round_trip(from.raw);
    bytes::lemma_words_round_trip(from.nodes);
    if l == 0 {
        assert(from.nodes =~= Seq::empty());
        assert(part.len() == len);
        assert(s.subrange(pos, pos + len) == word_bytes(from.raw));
    } else {
        let word = le32(from.nodes.len() as u32);
        bytes::lemma_le32(from.nodes.len() as u32, Seq::empty());
        let p1 = pos + 4;
        let p2 = p1 + 4 * slots;
        assert(part.len() == 4 + 4 * slots + len);
        assert(s.subrange(pos, pos + 4) =~= part.subrange(0, 4));
        assert(part.subrange(0, 4) =~= word);
        assert(s.subrange(p1, p2) =~= part.subrange(4, 4 + 4 * slots));
        assert(part.subrange(4, 4 + 4 * slots) =~= word_bytes(from.nodes));
        assert(s.subrange(p2, p2 + len) =~= part.subrange(4 + 4 * slots, 4 + 4 * slots + len));
        assert(part.subrange(4 + 4 * slots, 4 + 4 * slots + len) =~= word_bytes(from.raw));
    }
}

/// The layers section holds the layers that were written into it.
proof fn lemma_layers_read_back(
    h: SnapshotHeader,
    layers: Seq<Layer>,
    params: HnswParams,
    n: nat,
)
    requires
        n <= layers.len(),
        params_restored(params, h),
        layers_fit(layers, params, h.count as nat),
    ensures
        layers_upto(padded(layers_part(stored_layers(layers))), h, n) == Ok::<
            (Seq<StoredLayer>, int),
            SnapshotError,
        >(
            (
                stored_layers(layers).take(n as int),
                layers_part(stored_layers(layers).take(n as int)).len() as int,
            ),
        ),
    decreases n,
{
    let all = stored_layers(layers);
    let whole = layers_part(all);
    let s = padded(whole);
    if n == 0 {
        assert(all.take(0) =~= Seq::empty());
    } else {
        let l = n - 1;
        lemma_layers_read_back(h, layers, params, l as nat);
        let layer = layers[l];
        let before = layers_part(all.take(l));
        let part = layer_part(l, all[l]);
        let pos = before.len() as int;
        assert(all.take(n as int).drop_last() =~= all.take(l));
        assert(layers_part(all.take(n as int)) == before + part);
        lemma_layers_prefix(all, n as int);
        assert(whole.take(pos + part.len()) =~= before + part);
        assert forall|i: int| 0 <= i < part.len() implies s[pos + i] == part[i] by {
            assert(whole.take(pos + part.len())[pos + i] == (before + part)[pos + i]);
        }
        assert(s.subrange(pos, pos + part.len()) =~= part);
        assert(layer.wf());
        assert forall|node: NodeId| #[trigger] layer@.contains_key(node) implies node < h.count by {
            assert(layers[l]@.contains_key(node));
        }
        lemma_slots_within(layer, h.count as int);
        lemma_layer_reads_back(s, pos, l, layer, h.count as int);
        assert(all.take(n as int) =~= all.take(l).push(all[l]));
    }
}

/// The layers before a point start the section.
proof fn lemma_layers_prefix(all: Seq<StoredLayer>, n: int)
    requires
        0 <= n <= all.len(),
    ensures
        layers_part(all.take(n)).is_prefix_of(layers_part(all)),
    decreases all.len() - n,
{
    if n < all.len() {
        lemma_layers_prefix(all, n + 1);
        assert(all.take(n + 1).drop_last() =~= all.take(n));
        let shorter = layers_part(all.take(n));
        let longer = layers_part(all.take(n + 1));
        assert(longer.take(shorter.len() as int) =~= shorter);
        assert(layers_part(all).take(shorter.len() as int) =~= longer.take(
            shorter.len() as int,
        ));
    } else {
        assert(all.take(n) =~= all);
        assert(layers_part(all).take(layers_part(all).len() as int) =~= layers_part(all));
    }
}

/// A layer has no more slots than there are nodes.
proof fn lemma_slots_within(layer: Layer, count: int)
    requires
        layer.wf(),
        0 <= count,
        forall|node: NodeId| #[trigger] layer@.contains_key(node) ==> node < count,
    ensures
        layer.slots() <= count,
{
    layer.lemma_order();
    let order = layer.order();
    let ids = order.map_values(|node: NodeId| node as int);
    assert(ids.no_duplicates()) by {
        assert forall|i: int, j: int| 0 <= i < j < ids.len() implies ids[i] != ids[j] by {
            assert(order[i] != order[j]);
        }
    }
    ids.unique_seq_to_set();
    let below = vstd::set_lib::set_int_range(0, count);
    vstd::set_lib::lemma_int_range(0, count);
    assert(ids.to_set().subset_of(below)) by {
        assert forall|x: int| ids.to_set().contains(x) implies below.contains(x) by {
            let i = ids.index_of(x);
            assert(order.contains(order[i]));
            assert(layer@.contains_key(order[i]));
        }
    }
    vstd::set_lib::lemma_len_subset(ids.to_set(), below);
}

/// What a snapshot of `index` says.
pub open spec fn contents_for(index: HnswIndex, wal_seq: u64) -> Contents {
    Contents {
        header: header_for(index, wal_seq),
        vectors: index.store().flat(),
        levels: index@.levels,
        layers: stored_layers(index.all_layers()),
    }
}

/// The header of a valid index describes nothing impossible, and its sections are where the body
/// has them.
proof fn lemma_header_for(index: HnswIndex, wal_seq: u64)
    requires
        index.insertable(),
        writable(index),
    ensures
        ({
            let h = header_for(index, wal_seq);
            let vectors = aligned(4 * (h.count * h.dim));
            &&& header_error(h) is None
            &&& h.count == index@.vecs.len()
            &&& h.dim == index.width()
            &&& h.max_layer == index@.top
            &&& params_restored(index.settings(), h)
            &&& index.store().flat().len() == h.count * h.dim
            &&& h.section_offsets@[0] == 0
            &&& h.section_offsets@[1] == vectors
            &&& h.section_offsets@[2] == vectors + aligned(h.count as int)
            &&& h.section_offsets@[3] == body_for(index).len()
            &&& h.body_len == body_for(index).len()
        }),
{
    let h = header_for(index, wal_seq);
    index.lemma_wf();
    index.store().lemma_wf();
    bytes::lemma_words_round_trip(index.store().flat());
    assert(index@.vecs.len() * index.width() == index.width() * index@.vecs.len())
        by (nonlinear_arith);
    let check = header::section_check(h);
    assert forall|i: int| 0 <= i < 6 implies (#[trigger] check(i)) is None by {}
    lemma_first_none(6, check);
}

/// The body of a snapshot says what the index is.
proof fn lemma_body_reads_back(index: HnswIndex, wal_seq: u64)
    requires
        index.insertable(),
        writable(index),
    ensures
        body_contents(body_for(index), header_for(index, wal_seq)) == Ok::<
            Contents,
            SnapshotError,
        >(contents_for(index, wal_seq)),
{
    let h = header_for(index, wal_seq);
    let body = body_for(index);
    let flat = index.store().flat();
    let layers = index.all_layers();
    lemma_header_for(index, wal_seq);
    index.lemma_wf();
    bytes::lemma_words_round_trip(flat);
    assert(body.subrange(0, 4 * (h.count * h.dim)) =~= word_bytes(flat));
    let at = h.section_offsets@[1] as int;
    assert(body.subrange(at, at + h.count) =~= index@.levels);
    let from = h.section_offsets@[2] as int;
    let to = h.section_offsets@[3] as int;
    assert(body.subrange(from, to) =~= padded(layers_part(stored_layers(layers))));
    lemma_layers_read_back(h, layers, index.settings(), layers.len());
    assert(stored_layers(layers).take(layers.len() as int) =~= stored_layers(layers));
}

/// The nodes of a valid index all have vectors.
proof fn lemma_no_stray_nodes(index: HnswIndex, wal_seq: u64)
    requires
        index.insertable(),
        writable(index),
    ensures
        contents_error(contents_for(index, wal_seq)) is None,
{
    let c = contents_for(index, wal_seq);
    let h = c.header;
    let layers = index.all_layers();
    lemma_header_for(index, wal_seq);
    index.lemma_wf();
    let stray = stray_nodes(c.layers, h.count as int);
    assert forall|l: int| 0 <= l < c.layers.len() implies (#[trigger] stray(l)) is None by {
        let layer = layers[l];
        let inner = stray_node(c.layers[l], l, h.count as int);
        assert(layer.wf());
        layer.lemma_order();
        layer.lemma_table();
        assert forall|i: int| 0 <= i < c.layers[l].nodes.len() implies (#[trigger] inner(
            i,
        )) is None by {
            assert(layer.order().contains(layer.table()[i]));
            assert(layers[l]@.contains_key(layer.table()[i]));
        }
        lemma_first_none(c.layers[l].nodes.len() as int, inner);
    }
    lemma_first_none(c.layers.len() as int, stray);
}

/// A snapshot of an index holds the contents that the index is made of.
#[verifier::spinoff_prover]
#[verifier::rlimit(40)]
proof fn lemma_contents_read_back(index: HnswIndex, wal_seq: u64, verify: Verify, rest: Seq<u8>)
    requires
        index.insertable(),
        writable(index),
    ensures
        contents_of(snapshot_for(index, wal_seq) + rest, verify) == Ok::<Contents, SnapshotError>(
            contents_for(index, wal_seq),
        ),
{
    let h = header_for(index, wal_seq);
    let body = body_for(index);
    let s = snapshot_for(index, wal_seq) + rest;
    lemma_header_for(index, wal_seq);
    header::lemma_header_round_trip(h, body + rest);
    assert(s =~= header_bytes(h) + (body + rest));
    assert(s.subrange(128, 128 + h.body_len) =~= body);
    lemma_body_reads_back(index, wal_seq);
}

/// A snapshot of an index says what the index is, whatever follows it in the file and however it
/// is verified. Mapping it succeeds, and so does reading it, unless a vector has a component that
/// is not finite.
#[verifier::spinoff_prover]
#[verifier::rlimit(40)]
pub proof fn lemma_snapshot_reads_back(
    index: HnswIndex,
    wal_seq: u64,
    verify: Verify,
    rest: Seq<u8>,
)
    requires
        index.insertable(),
        writable(index),
    ensures
        contents_of(snapshot_for(index, wal_seq) + rest, verify) == Ok::<Contents, SnapshotError>(
            contents_for(index, wal_seq),
        ),
        load_error(snapshot_for(index, wal_seq) + rest, verify) is None,
        read_error(snapshot_for(index, wal_seq) + rest, verify) == match vector_store::finite_error(
            index.store().flat(),
            index.width() as int,
            0,
        ) {
            Some(e) => Some(SnapshotError::Vector(e)),
            None => None,
        },
{
    let h = header_for(index, wal_seq);
    lemma_contents_read_back(index, wal_seq, verify, rest);
    lemma_header_for(index, wal_seq);
    lemma_no_stray_nodes(index, wal_seq);
    layer::lemma_exact_division(h.count as int, h.dim as int);
}

/// A snapshot whose body is damaged is refused once the body is verified: with any one of its
/// bytes changed, the checksum in the header tells.
#[verifier::spinoff_prover]
#[verifier::rlimit(60)]
pub proof fn lemma_damaged_body_is_noticed(
    index: HnswIndex,
    wal_seq: u64,
    at: int,
    byte: u8,
    rest: Seq<u8>,
)
    requires
        index.insertable(),
        writable(index),
        HEADER_BYTES <= at < snapshot_for(index, wal_seq).len(),
        byte != snapshot_for(index, wal_seq)[at],
    ensures
        ({
            let s = snapshot_for(index, wal_seq).update(at, byte) + rest;
            contents_of(s, Verify::Body) matches Err(
                SnapshotError::BodyChecksumMismatch { stored, computed },
            ) && stored == crc32_of(body_for(index)) && stored != computed
        }),
{
    let h = header_for(index, wal_seq);
    let body = body_for(index);
    let damaged = body.update(at - 128, byte);
    let s = snapshot_for(index, wal_seq).update(at, byte) + rest;
    lemma_header_for(index, wal_seq);
    header::lemma_header_round_trip(h, damaged + rest);
    assert(s =~= header_bytes(h) + (damaged + rest));
    assert(s.subrange(128, 128 + h.body_len) =~= damaged);
    bytes::lemma_changed_byte_is_noticed(body, at - 128, byte);
}

/// A section is its content and as few zeros as bring it to a multiple of four.
pub proof fn lemma_padded(content: Seq<u8>)
    ensures
        padded(content).len() % 4 == 0,
        content.len() <= padded(content).len() < content.len() + 4,
        padded(content).take(content.len() as int) == content,
        forall|i: int|
            content.len() <= i < padded(content).len() ==> #[trigger] padded(content)[i] == 0,
        aligned(content.len() as int) == padded(content).len(),
{
    assert(padded(content).take(content.len() as int) =~= content);
}

/// A snapshot that was cut anywhere is refused, with either amount of checking: one without a whole
/// header for that, and any other one because its body is not all there.
#[verifier::spinoff_prover]
#[verifier::rlimit(40)]
pub proof fn lemma_cut_snapshot_is_refused(
    index: HnswIndex,
    wal_seq: u64,
    kept: nat,
    verify: Verify,
)
    requires
        index.insertable(),
        writable(index),
        kept < snapshot_for(index, wal_seq).len(),
    ensures
        contents_of(snapshot_for(index, wal_seq).take(kept as int), verify) == Err::<
            Contents,
            SnapshotError,
        >(
            if kept < 128 {
                SnapshotError::TooShort { needed: 128, got: kept as usize }
            } else {
                SnapshotError::BodyTruncated {
                    file_len: kept as u64,
                    body_len: (snapshot_for(index, wal_seq).len() - 128) as u64,
                    header_len: 128,
                }
            },
        ),
{
    let h = header_for(index, wal_seq);
    let s = snapshot_for(index, wal_seq);
    let cut = s.take(kept as int);
    lemma_header_for(index, wal_seq);
    header::lemma_header_round_trip(h, Seq::empty());
    if kept >= 128 {
        let rest = s.subrange(128, kept as int);
        assert(cut =~= header_bytes(h) + rest);
        header::lemma_header_round_trip(h, rest);
    }
}

/// Where an index stands in its snapshot: behind the header come the vectors in the order of their
/// nodes, component by component, then the level of every node, and at the next multiple of four the
/// adjacency of layer 0.
#[verifier::spinoff_prover]
#[verifier::rlimit(40)]
pub proof fn lemma_snapshot_layout(index: HnswIndex, wal_seq: u64, node: int, component: int)
    requires
        index.insertable(),
        writable(index),
        0 <= node < index@.vecs.len(),
        0 <= component < index.width(),
    ensures
        ({
            let s = snapshot_for(index, wal_seq);
            let count = index@.vecs.len() as int;
            let dim = index.width() as int;
            let word = 128 + 4 * (node * dim + component);
            let level = 128 + 4 * (count * dim) + node;
            let layers = 128 + 4 * (count * dim) + count + padding(count);
            let base = word_bytes(index.all_layers()[0].raw());
            &&& 128 <= word <= s.len() - 4
            &&& s.subrange(word, word + 4) == le32(index@.vecs[node][component])
            &&& word < level < layers <= s.len() - base.len()
            &&& s[level] == index@.levels[node]
            &&& layers % 4 == 0
            &&& s.subrange(layers, layers + base.len()) == base
        }),
{
    let h = header_for(index, wal_seq);
    let s = snapshot_for(index, wal_seq);
    let flat = index.store().flat();
    let count = index@.vecs.len() as int;
    let dim = index.width() as int;
    let at = node * dim + component;
    let word = 128 + 4 * at;
    let words = word_bytes(flat);
    let vectors = padded(words);
    let levels = padded(index@.levels);
    let all = stored_layers(index.all_layers());
    let part = layers_part(all);
    let base = word_bytes(index.all_layers()[0].raw());
    index.lemma_wf();
    index.store().lemma_wf();
    lemma_header_for(index, wal_seq);
    header::lemma_header_round_trip(h, Seq::empty());
    bytes::lemma_words_round_trip(flat);
    vector_store::lemma_row_bounds(node, dim, count, flat.len() as int);
    assert(flat.len() == count * dim);
    assert(flat[at] == index@.vecs[node][component]);
    bytes::lemma_le32(flat[at], Seq::empty());
    assert(vectors =~= words);
    assert(s =~= header_bytes(h) + (words + levels + padded(part)));
    assert forall|k: int| 0 <= k < 4 implies s[word + k] == #[trigger] le32(flat[at])[k] by {
        assert(s[word + k] == words[4 * at + k]);
        assert((4 * at + k) / 4 == at && (4 * at + k) % 4 == k);
    }
    assert(s.subrange(word, word + 4) =~= le32(flat[at]));
    lemma_padded(index@.levels);
    assert(s[128 + 4 * (count * dim) + node] == levels[node]);
    lemma_layers_prefix(all, 1);
    assert(all.take(1).drop_last() =~= Seq::empty());
    assert(all.take(1).last() == stored(index.all_layers()[0]));
    reveal_with_fuel(layers_part, 2);
    assert(layers_part(all.take(1)) =~= base);
    let layers = 128 + 4 * (count * dim) + count + padding(count);
    assert(base.is_prefix_of(part));
    lemma_padded(part);
    assert forall|k: int| 0 <= k < base.len() implies s[layers + k] == #[trigger] base[k] by {
        assert(part.take(base.len() as int)[k] == part[k]);
        assert(padded(part)[k] == part[k]);
    }
    assert(s.subrange(layers, layers + base.len()) =~= base);
}

/// What is read out of a snapshot agrees with its header: there is a vector of the right size and a
/// level for every node, a layer for every level, and a body that is all there, with its checksum if
/// that was asked for.
pub proof fn lemma_contents(s: Seq<u8>, verify: Verify)
    ensures
        contents_of(s, verify) matches Ok(c) ==> {
            let h = c.header;
            &&& header_error(h) is None
            &&& s.len() >= 128 + h.body_len
            &&& verify == Verify::Body ==> crc32_of(s.subrange(128, 128 + h.body_len))
                == h.body_crc32
            &&& c.vectors.len() == h.count * h.dim
            &&& c.levels.len() == h.count
            &&& c.layers.len() == h.max_layer + 1
        },
        contents_of(s, Verify::Body) is Ok ==> contents_of(s, Verify::Header) == contents_of(
            s,
            Verify::Body,
        ),
{
    if let Ok(c) = contents_of(s, verify) {
        let h = c.header;
        let body = s.subrange(128, 128 + h.body_len);
        header::lemma_sections_tile(h, Section::Vectors);
        header::lemma_sections_tile(h, Section::NodeLevels);
        let section = body.subrange(
            section_start_of(h, Section::Layers) as int,
            section_end_of(h, Section::Layers) as int,
        );
        lemma_layers_grow(section, h, 0, (h.max_layer + 1) as nat);
        assert(h.count * h.dim >= 0) by (nonlinear_arith)
            requires
                h.count >= 0,
                h.dim >= 0,
        ;
    }
}

/// Contents make an index if and only if an empty one claims no layers above the first and no layer
/// names a node that there is no vector for.
pub proof fn lemma_contents_accepted(c: Contents)
    ensures
        contents_error(c) is None <==> {
            &&& c.header.count == 0 ==> c.header.max_layer == 0
            &&& forall|l: int, i: int|
                0 <= l < c.layers.len() && 0 <= i < c.layers[l].nodes.len() ==> (
                #[trigger] c.layers[l].nodes[i]) < c.header.count
        },
        contents_error(c) matches Some(IndexError::UnknownNode { layer, node }) ==> node
            >= c.header.count,
{
    let count = c.header.count as int;
    let check = stray_nodes(c.layers, count);
    lemma_first_none(c.layers.len() as int, check);
    assert forall|l: int| 0 <= l < c.layers.len() implies ((#[trigger] check(l)) is None <==> (
    forall|i: int| 0 <= i < c.layers[l].nodes.len() ==> (#[trigger] c.layers[l].nodes[i]) < count))
        by {
        let inner = stray_node(c.layers[l], l, count);
        lemma_first_none(c.layers[l].nodes.len() as int, inner);
        assert forall|i: int| 0 <= i < c.layers[l].nodes.len() implies ((#[trigger] inner(i))
            is None <==> c.layers[l].nodes[i] < count) by {}
        if forall|i: int|
            0 <= i < c.layers[l].nodes.len() ==> (#[trigger] c.layers[l].nodes[i]) < count {
            assert forall|i: int| 0 <= i < c.layers[l].nodes.len() implies (#[trigger] inner(i))
                is None by {
                assert(c.layers[l].nodes[i] < count);
            }
        }
        if check(l) is None {
            assert forall|i: int| 0 <= i < c.layers[l].nodes.len() implies (
            #[trigger] c.layers[l].nodes[i]) < count by {
                assert(inner(i) is None);
            }
        }
    }
    if forall|l: int, i: int|
        0 <= l < c.layers.len() && 0 <= i < c.layers[l].nodes.len() ==> (
        #[trigger] c.layers[l].nodes[i]) < c.header.count {
        assert forall|l: int| 0 <= l < c.layers.len() implies (#[trigger] check(l)) is None by {}
    }
    if first_of(c.layers.len() as int, check) is None {
        assert forall|l: int, i: int|
            0 <= l < c.layers.len() && 0 <= i < c.layers[l].nodes.len() implies (
        #[trigger] c.layers[l].nodes[i]) < c.header.count by {
            assert(check(l) is None);
        }
    } else {
        let l = crate::first::lemma_first_some(c.layers.len() as int, check);
        let inner = stray_node(c.layers[l], l, count);
        let i = crate::first::lemma_first_some(c.layers[l].nodes.len() as int, inner);
        assert(inner(i) is Some);
    }
}

/// An index is refused a snapshot if and only if one of its parameters or its topmost layer does not
/// fit into the header, and the refusal names which.
pub proof fn lemma_write_error(params: HnswParams, top: int)
    requires
        0 <= top <= usize::MAX,
        params.base_cap() <= usize::MAX,
        params.width() <= usize::MAX,
    ensures
        write_error(params, top) is None <==> params.base_cap() <= 65535 && params.width() <= 65535
            && top <= 255,
        match write_error(params, top) {
            Some(SnapshotError::ParameterTooLarge { parameter, value, limit }) => {
                ||| parameter == "max_degree0" && value == params.base_cap() && limit == 65535
                    && value > limit
                ||| parameter == "ef_construction" && value == params.width() && limit == 65535
                    && value > limit
                ||| parameter == "max_layer" && value == top && limit == 255 && value > limit
            },
            Some(_) => false,
            None => true,
        },
{
}

/// Two layers have the same nodes in the same order, with the same neighbours and the same room
/// for more.
pub open spec fn same_layer(a: Layer, b: Layer) -> bool {
    &&& a@ == b@
    &&& a.order() == b.order()
    &&& a.cap() == b.cap()
    &&& a.dense_spec() == b.dense_spec()
}

/// An index that was read back from a snapshot is the index that was written: the same vectors,
/// graph, parameters, metric and position in the sequence of levels, and layers with the same
/// nodes in the same order. It therefore answers every query and continues every build alike.
pub proof fn lemma_restored(index: HnswIndex, wal_seq: u64, back: HnswIndex)
    requires
        index.insertable(),
        writable(index),
        index_holds(back, contents_for(index, wal_seq)),
    ensures
        back@ == index@,
        back.settings() == index.settings(),
        back.kind() == index.kind(),
        back.width() == index.width(),
        back.level_state() == index.level_state(),
        back.store().all() == index.store().all(),
        back.all_layers().len() == index.all_layers().len(),
        forall|l: int| 0 <= l < index.all_layers().len() ==> same_layer(
            #[trigger] back.all_layers()[l],
            index.all_layers()[l],
        ),
        back.insertable(),
        index.valid() ==> back.valid(),
{
    let c = contents_for(index, wal_seq);
    lemma_header_for(index, wal_seq);
    index.lemma_wf();
    back.lemma_wf();
    index.settings().lemma_same(back.settings());
    assert forall|l: int| 0 <= l < index.all_layers().len() implies back@.layers[l]
        == #[trigger] index@.layers[l] && back.all_layers()[l].capped() by {
        let a = index.all_layers()[l];
        let b = back.all_layers()[l];
        assert(restores(b, l, c.header, c.layers[l]));
        layer::lemma_layer_round_trip(&a, &b);
        assert(index.all_layers()[l].capped());
        assert(back@.layers[l] == b@);
        assert(index@.layers[l] == a@);
    }
    assert forall|l: int| 0 <= l < index.all_layers().len() implies same_layer(
        #[trigger] back.all_layers()[l],
        index.all_layers()[l],
    ) by {
        assert(restores(back.all_layers()[l], l, c.header, c.layers[l]));
        layer::lemma_layer_round_trip(&index.all_layers()[l], &back.all_layers()[l]);
    }
    assert(back@.layers =~= index@.layers);
    assert(back@.vecs =~= index@.vecs);
    assert(back.capped()) by {
        assert forall|l: int| 0 <= l < back.all_layers().len() implies (
        #[trigger] back.all_layers()[l]).capped() by {
            assert(back@.layers[l] == index@.layers[l]);
        }
    }
}

/// A snapshot that was written can be loaded, with either amount of checking and whatever follows
/// it: what comes out is the index that was written, sound if that was, with its vectors in the
/// mapping.
pub proof fn lemma_written_loads(
    index: HnswIndex,
    wal_seq: u64,
    verify: Verify,
    rest: Seq<u8>,
    r: Result<HnswIndex, SnapshotError>,
)
    requires
        index.insertable(),
        writable(index),
        loads(r, snapshot_for(index, wal_seq) + rest, verify),
    ensures
        match r {
            Ok(back) => {
                &&& back.insertable()
                &&& index.valid() ==> back.valid()
                &&& back@ == index@
                &&& back.settings() == index.settings()
                &&& back.kind() == index.kind()
                &&& back.width() == index.width()
                &&& back.level_state() == index.level_state()
                &&& back.all_layers().len() == index.all_layers().len()
                &&& forall|l: int| 0 <= l < index.all_layers().len() ==> same_layer(
                    #[trigger] back.all_layers()[l],
                    index.all_layers()[l],
                )
                &&& back.store().reads_mapping()
                &&& back.store().mapped() == index@.vecs.len()
            },
            Err(e) => false,
        },
{
    lemma_snapshot_reads_back(index, wal_seq, verify, rest);
    if let Ok(back) = r {
        lemma_restored(index, wal_seq, back);
    }
}

/// Indexes that hold the same contents have the same graph, and one is sound if the other is.
pub proof fn lemma_held_alike(a: HnswIndex, b: HnswIndex, c: Contents)
    requires
        index_holds(a, c),
        index_holds(b, c),
    ensures
        a@ == b@,
        a.settings() == b.settings(),
        a.insertable() ==> b.insertable(),
        a.valid() ==> b.valid(),
{
    a.lemma_wf();
    b.lemma_wf();
    a.settings().lemma_same(b.settings());
    assert forall|l: int| 0 <= l < c.layers.len() implies b@.layers[l] == #[trigger] a@.layers[l]
        && (a.all_layers()[l].capped() ==> b.all_layers()[l].capped()) by {
        let x = a.all_layers()[l];
        let y = b.all_layers()[l];
        assert(restores(x, l, c.header, c.layers[l]));
        assert(restores(y, l, c.header, c.layers[l]));
        layer::lemma_layer_round_trip(&x, &y);
        assert(a@.layers[l] == x@);
        assert(b@.layers[l] == y@);
    }
    assert(a@.layers =~= b@.layers);
    assert(a@.vecs =~= b@.vecs);
    if a.insertable() {
        assert forall|l: int| 0 <= l < b.all_layers().len() implies (
        #[trigger] b.all_layers()[l]).capped() by {
            assert(a.all_layers()[l].capped());
            assert(b@.layers[l] == a@.layers[l]);
        }
    }
}

/// Where the vectors are kept does not show in a snapshot: indexes with the same graph,
/// parameters and layers are written as the same bytes.
pub proof fn lemma_storage_does_not_show(a: HnswIndex, b: HnswIndex, wal_seq: u64)
    requires
        a.wf(),
        b.wf(),
        a@ == b@,
        a.width() == b.width(),
        a.settings() == b.settings(),
        a.kind() == b.kind(),
        a.level_state() == b.level_state(),
        stored_layers(a.all_layers()) == stored_layers(b.all_layers()),
    ensures
        snapshot_for(a, wal_seq) == snapshot_for(b, wal_seq),
{
    a.lemma_wf();
    b.lemma_wf();
    a.store().lemma_wf();
    b.store().lemma_wf();
    let dim = a.width() as int;
    let size = a@.vecs.len() as int;
    assert forall|i: int| 0 <= i < size * dim implies a.store().flat()[i] == b.store().flat()[i] by {
        let r = i / dim;
        let k = i % dim;
        vstd::arithmetic::div_mod::lemma_fundamental_div_mod(i, dim);
        assert(dim * r == r * dim) by (nonlinear_arith);
        assert(0 <= r < size) by (nonlinear_arith)
            requires
                0 <= i < size * dim,
                dim >= 1,
                i == r * dim + k,
                0 <= k < dim,
        ;
        vector_store::lemma_row_bounds(r, dim, size, size * dim);
        assert(a.store().all()[r][k] == a.store().flat()[i]);
        assert(b.store().all()[r][k] == b.store().flat()[i]);
    }
    assert(a.store().flat() =~= b.store().flat());
}

/// What the header of a snapshot tells of the index without the rest being read: its size, all of it
/// live, its dimension, entry point, topmost layer, parameters and metric, where its generator of
/// levels stands, and the last log record that it contains.
pub proof fn lemma_snapshot_header(index: HnswIndex, wal_seq: u64, rest: Seq<u8>)
    requires
        index.insertable(),
        writable(index),
    ensures
        decoded(snapshot_for(index, wal_seq) + rest) matches Ok(h) && {
            &&& h.count == index@.vecs.len()
            &&& h.live_count == h.count
            &&& h.dim == index.width()
            &&& h.entry_point == index@.entry
            &&& h.max_layer == index@.top
            &&& h.m == index.settings().links()
            &&& h.max_degree0 == index.settings().base_cap()
            &&& h.ef_construction == index.settings().width()
            &&& h.rng_seed == index.settings().origin()
            &&& h.flags.heuristic == index.settings().policy().heuristic
            &&& h.flags.keep_pruned == index.settings().policy().keep_pruned
            &&& h.metric == index.kind()
            &&& h.levels_drawn == index.level_state().2
            &&& h.wal_seq == wal_seq
            &&& h.body_len == snapshot_for(index, wal_seq).len() - 128
            &&& h.body_crc32 == crc32_of(snapshot_for(index, wal_seq).skip(128))
        },
{
    let h = header_for(index, wal_seq);
    let s = snapshot_for(index, wal_seq);
    lemma_header_for(index, wal_seq);
    header::lemma_header_round_trip(h, body_for(index) + rest);
    assert(s + rest =~= header_bytes(h) + (body_for(index) + rest));
    assert(s.skip(128) =~= body_for(index));
}

/// Whole words come back as the bytes that they were read from.
proof fn lemma_whole_words(s: Seq<u8>)
    requires
        s.len() % 4 == 0,
    ensures
        word_bytes(words_of(s)) == s,
{
    assert forall|i: int| 0 <= i < s.len() implies #[trigger] s[i] == word_bytes(words_of(s))[i] by {
        let word = s.subrange(4 * (i / 4), 4 * (i / 4) + 4);
        bytes::lemma_le32(0, word);
        assert(words_of(s)[i / 4] == value32(word));
        assert(word[i % 4] == s[i]);
    }
    assert(word_bytes(words_of(s)) =~= s);
}

/// A layer that was read is what stands in the section.
proof fn lemma_layer_was_written(s: Seq<u8>, pos: int, l: int, cap: int, count: int)
    requires
        0 <= pos <= s.len(),
        0 <= l,
        0 <= cap,
        0 <= count,
        layer_at(s, pos, l, cap, count) is Ok,
    ensures
        ({
            let (layer, next) = layer_at(s, pos, l, cap, count)->Ok_0;
            &&& pos <= next <= s.len()
            &&& s.subrange(pos, next) == layer_part(l, layer)
        }),
{
    let (layer, next) = layer_at(s, pos, l, cap, count)->Ok_0;
    if l == 0 {
        let words = count * (cap + 1);
        assert(words >= 0) by (nonlinear_arith)
            requires
                words == count * (cap + 1),
                count >= 0,
                cap >= 0,
        ;
        lemma_whole_words(s.subrange(pos, pos + 4 * words));
    } else {
        let slots = value32(s.subrange(pos, pos + 4)) as int;
        let words = slots * (cap + 1);
        assert(words >= 0) by (nonlinear_arith)
            requires
                words == slots * (cap + 1),
                slots >= 0,
                cap >= 0,
        ;
        let at = pos + 4 + 4 * slots;
        bytes::lemma_le32(0, s.subrange(pos, pos + 4));
        lemma_whole_words(s.subrange(pos + 4, at));
        lemma_whole_words(s.subrange(at, at + 4 * words));
        assert(layer.nodes.len() == slots);
        assert(s.subrange(pos, next) =~= s.subrange(pos, pos + 4) + s.subrange(pos + 4, at)
            + s.subrange(at, next));
    }
}

/// The layers that were read are what the section starts with.
proof fn lemma_layers_were_written(s: Seq<u8>, h: SnapshotHeader, n: nat)
    requires
        layers_upto(s, h, n) is Ok,
    ensures
        ({
            let (layers, end) = layers_upto(s, h, n)->Ok_0;
            &&& layers.len() == n
            &&& 0 <= end <= s.len()
            &&& s.take(end) == layers_part(layers)
        }),
    decreases n,
{
    if n == 0 {
        assert(s.take(0) =~= Seq::empty());
    } else {
        lemma_layers_were_written(s, h, (n - 1) as nat);
        let (before, pos) = layers_upto(s, h, (n - 1) as nat)->Ok_0;
        let (layers, end) = layers_upto(s, h, n)->Ok_0;
        lemma_layer_was_written(s, pos, n - 1, header_cap(h, n - 1), h.count as int);
        assert(layers.drop_last() =~= before);
        assert(s.take(end) =~= s.take(pos) + s.subrange(pos, end));
    }
}

/// What is read out of a snapshot is what stands in it: the vectors, the levels and the layers are
/// the bytes of their sections, and nothing but padding follows them there.
pub proof fn lemma_contents_were_written(s: Seq<u8>, verify: Verify)
    ensures
        contents_of(s, verify) matches Ok(c) ==> {
            let h = c.header;
            let body = s.subrange(128, 128 + h.body_len);
            let vectors = body.subrange(
                section_start_of(h, Section::Vectors) as int,
                section_end_of(h, Section::Vectors) as int,
            );
            let levels = body.subrange(
                section_start_of(h, Section::NodeLevels) as int,
                section_end_of(h, Section::NodeLevels) as int,
            );
            let layers = body.subrange(
                section_start_of(h, Section::Layers) as int,
                section_end_of(h, Section::Layers) as int,
            );
            &&& vectors == word_bytes(c.vectors)
            &&& c.levels.is_prefix_of(levels)
            &&& levels.len() - c.levels.len() < 4
            &&& levels.len() % 4 == 0
            &&& layers_part(c.layers).is_prefix_of(layers)
            &&& layers.len() - layers_part(c.layers).len() < 4
        },
{
    if let Ok(c) = contents_of(s, verify) {
        let h = c.header;
        let body = s.subrange(128, 128 + h.body_len);
        lemma_contents(s, verify);
        header::lemma_sections_tile(h, Section::Vectors);
        header::lemma_sections_tile(h, Section::NodeLevels);
        header::lemma_sections_tile(h, Section::Layers);
        let at = section_start_of(h, Section::Vectors) as int;
        let words = h.count * h.dim;
        assert(words >= 0) by (nonlinear_arith)
            requires
                words == h.count * h.dim,
                h.count >= 0,
                h.dim >= 0,
        ;
        lemma_whole_words(body.subrange(at, at + 4 * words));
        let from = section_start_of(h, Section::NodeLevels) as int;
        let to = section_end_of(h, Section::NodeLevels) as int;
        assert(body.subrange(from, to).subrange(0, c.levels.len() as int) =~= c.levels);
        let layers = body.subrange(
            section_start_of(h, Section::Layers) as int,
            section_end_of(h, Section::Layers) as int,
        );
        lemma_layers_were_written(layers, h, (h.max_layer + 1) as nat);
        let end = layers_upto(layers, h, (h.max_layer + 1) as nat)->Ok_0.1;
        assert(layers.take(end) =~= layers.subrange(0, end));
    }
}

} // verus!
