//! Numbers as bytes, least significant first, and checksums over bytes.

use vstd::prelude::*;

verus! {

/// One bit of a CRC-32: shift right, and fold the polynomial in if a one fell out.
pub open spec fn crc_bit(state: u32) -> u32 {
    if state & 1 == 1 {
        (state >> 1) ^ 0xEDB8_8320
    } else {
        state >> 1
    }
}

/// One byte of a CRC-32: its bits are folded in from the least significant one on.
pub open spec fn crc_byte(state: u32, byte: u8) -> u32 {
    let s = state ^ byte as u32;
    crc_bit(crc_bit(crc_bit(crc_bit(crc_bit(crc_bit(crc_bit(crc_bit(s))))))))
}

/// The register after a sequence of bytes, which starts with all bits set.
pub open spec fn crc_register(bytes: Seq<u8>) -> u32
    decreases bytes.len(),
{
    if bytes.len() == 0 {
        0xFFFF_FFFF
    } else {
        crc_byte(crc_register(bytes.drop_last()), bytes.last())
    }
}

/// The CRC-32 (IEEE 802.3) checksum of a byte sequence: the register with every bit flipped.
#[verifier::opaque]
pub open spec fn crc32_of(bytes: Seq<u8>) -> u32 {
    !crc_register(bytes)
}

/// Calls `crc32fast::hash`: the CRC-32 (IEEE 802.3) checksum of a slice.
#[verifier::external_body]
pub(crate) fn crc32(bytes: &[u8]) -> (r: u32)
    ensures
        r == crc32_of(bytes@),
{
    crc32fast::hash(bytes)
}

/// Registers that differ, or bytes that differ, leave registers that differ.
proof fn lemma_crc_byte(s: u32, t: u32, a: u8, b: u8)
    ensures
        s != t ==> crc_byte(s, a) != crc_byte(t, a),
        a != b ==> crc_byte(s, a) != crc_byte(s, b),
{
    assert(s != t ==> (s ^ (a as u32)) != (t ^ (a as u32))) by (bit_vector);
    assert(a != b ==> (s ^ (a as u32)) != (s ^ (b as u32))) by (bit_vector);
    assert forall|x: u32, y: u32| x != y implies #[trigger] crc_bit(x) != #[trigger] crc_bit(y) by {
        lemma_crc_bit(x, y);
    }
}

proof fn lemma_crc_bit(x: u32, y: u32)
    ensures
        x != y ==> crc_bit(x) != crc_bit(y),
{
    assert(x != y ==> (if x & 1 == 1 {
        (x >> 1) ^ 0xEDB8_8320u32
    } else {
        x >> 1
    }) != (if y & 1 == 1 {
        (y >> 1) ^ 0xEDB8_8320u32
    } else {
        y >> 1
    })) by (bit_vector);
}

/// The checksum notices every change of a single byte.
pub proof fn lemma_changed_byte_is_noticed(bytes: Seq<u8>, at: int, byte: u8)
    requires
        0 <= at < bytes.len(),
        byte != bytes[at],
    ensures
        crc32_of(bytes.update(at, byte)) != crc32_of(bytes),
{
    reveal(crc32_of);
    lemma_changed_register(bytes, at, byte);
    let x = crc_register(bytes.update(at, byte));
    let y = crc_register(bytes);
    assert(x != y ==> !x != !y) by (bit_vector);
}

proof fn lemma_changed_register(bytes: Seq<u8>, at: int, byte: u8)
    requires
        0 <= at < bytes.len(),
        byte != bytes[at],
    ensures
        crc_register(bytes.update(at, byte)) != crc_register(bytes),
    decreases bytes.len(),
{
    let changed = bytes.update(at, byte);
    if at == bytes.len() - 1 {
        assert(changed.drop_last() =~= bytes.drop_last());
        let s = crc_register(bytes.drop_last());
        lemma_crc_byte(s, s, changed.last(), bytes.last());
    } else {
        assert(changed.drop_last() =~= bytes.drop_last().update(at, byte));
        lemma_changed_register(bytes.drop_last(), at, byte);
        lemma_crc_byte(
            crc_register(changed.drop_last()),
            crc_register(bytes.drop_last()),
            bytes.last(),
            bytes.last(),
        );
    }
}

pub open spec fn le16(x: u16) -> Seq<u8> {
    seq![(x % 256) as u8, (x / 256) as u8]
}

#[verifier::opaque]
pub open spec fn le32(x: u32) -> Seq<u8> {
    seq![
        (x % 256) as u8,
        (x / 256 % 256) as u8,
        (x / 65536 % 256) as u8,
        (x / 16777216) as u8,
    ]
}

pub open spec fn le64(x: u64) -> Seq<u8> {
    le32((x % 0x1_0000_0000) as u32) + le32((x / 0x1_0000_0000) as u32)
}

pub open spec fn value16(s: Seq<u8>) -> u16 {
    (s[0] + 256 * s[1]) as u16
}

#[verifier::opaque]
pub open spec fn value32(s: Seq<u8>) -> u32 {
    (s[0] + 256 * s[1] + 65536 * s[2] + 16777216 * s[3]) as u32
}

pub open spec fn value64(s: Seq<u8>) -> u64 {
    (value32(s.take(4)) + 0x1_0000_0000 * value32(s.skip(4))) as u64
}

/// Two bytes and the number they stand for determine each other.
pub proof fn lemma_le16(x: u16, s: Seq<u8>)
    ensures
        le16(x).len() == 2,
        value16(le16(x)) == x,
        s.len() == 2 ==> le16(value16(s)) == s,
{
    if s.len() == 2 {
        assert(le16(value16(s)) =~= s);
    }
}

proof fn lemma_split32(x: int)
    requires
        0 <= x <= u32::MAX,
    ensures
        x == x % 256 + 256 * (x / 256 % 256) + 65536 * (x / 65536 % 256) + 16777216 * (x
            / 16777216),
        0 <= x / 16777216 < 256,
{
    let a = x / 256;
    let b = a / 256;
    assert(x / 65536 == b);
    assert(x / 16777216 == b / 256);
}

proof fn lemma_join32(a: int, b: int, c: int, d: int)
    requires
        0 <= a < 256,
        0 <= b < 256,
        0 <= c < 256,
        0 <= d < 256,
    ensures
        ({
            let v = a + 256 * b + 65536 * c + 16777216 * d;
            &&& v <= u32::MAX
            &&& v % 256 == a
            &&& v / 256 % 256 == b
            &&& v / 65536 % 256 == c
            &&& v / 16777216 == d
        }),
{
    let v = a + 256 * b + 65536 * c + 16777216 * d;
    assert(v / 256 == b + 256 * c + 65536 * d);
    assert(v / 65536 == c + 256 * d);
    assert(v / 16777216 == d);
}

/// The same of four bytes.
pub proof fn lemma_le32(x: u32, s: Seq<u8>)
    ensures
        le32(x).len() == 4,
        value32(le32(x)) == x,
        s.len() == 4 ==> le32(value32(s)) == s,
{
    reveal(le32);
    reveal(value32);
    lemma_split32(x as int);
    if s.len() == 4 {
        lemma_join32(s[0] as int, s[1] as int, s[2] as int, s[3] as int);
        assert(le32(value32(s)) =~= s);
    }
}

/// The same of eight bytes.
pub proof fn lemma_le64(x: u64, s: Seq<u8>)
    ensures
        le64(x).len() == 8,
        value64(le64(x)) == x,
        s.len() == 8 ==> le64(value64(s)) == s,
{
    let low = (x % 0x1_0000_0000) as u32;
    let high = (x / 0x1_0000_0000) as u32;
    lemma_le32(low, s);
    lemma_le32(high, s);
    assert(le64(x).take(4) =~= le32(low));
    assert(le64(x).skip(4) =~= le32(high));
    if s.len() == 8 {
        lemma_le32(0, s.take(4));
        lemma_le32(0, s.skip(4));
        assert(s =~= s.take(4) + s.skip(4));
    }
}

/// The least significant byte comes first: a number is the sum of its bytes, each weighed by its
/// place.
pub proof fn lemma_little_endian(x: u16, y: u32, z: u64)
    ensures
        x == le16(x)[0] + 0x100 * le16(x)[1],
        y == le32(y)[0] + 0x100 * le32(y)[1] + 0x1_0000 * le32(y)[2] + 0x100_0000 * le32(y)[3],
        z == le64(z)[0] + 0x100 * le64(z)[1] + 0x1_0000 * le64(z)[2] + 0x100_0000 * le64(z)[3]
            + 0x1_0000_0000 * le64(z)[4] + 0x100_0000_0000 * le64(z)[5] + 0x1_0000_0000_0000
            * le64(z)[6] + 0x100_0000_0000_0000 * le64(z)[7],
{
    let low = (z % 0x1_0000_0000) as u32;
    let high = (z / 0x1_0000_0000) as u32;
    reveal(le32);
    lemma_split32(y as int);
    lemma_split32(low as int);
    lemma_split32(high as int);
    assert(le64(z)[0] == le32(low)[0] && le64(z)[1] == le32(low)[1] && le64(z)[2] == le32(low)[2]
        && le64(z)[3] == le32(low)[3]);
    assert(le64(z)[4] == le32(high)[0] && le64(z)[5] == le32(high)[1] && le64(z)[6] == le32(
        high,
    )[2] && le64(z)[7] == le32(high)[3]);
}

/// Word `i` of a byte sequence is the number that its bytes from the `4 * i`th on stand for.
pub proof fn lemma_word_at(s: Seq<u8>, i: int)
    requires
        0 <= i,
        4 * i + 4 <= s.len(),
    ensures
        words_of(s).len() == s.len() / 4,
        words_of(s)[i] == s[4 * i] + 0x100 * s[4 * i + 1] + 0x1_0000 * s[4 * i + 2] + 0x100_0000
            * s[4 * i + 3],
{
    let four = s.subrange(4 * i, 4 * i + 4);
    reveal(value32);
    lemma_join32(four[0] as int, four[1] as int, four[2] as int, four[3] as int);
}

/// The words of a byte sequence, four bytes each.
pub open spec fn words_of(s: Seq<u8>) -> Seq<u32> {
    Seq::new(s.len() / 4, |i: int| value32(s.subrange(4 * i, 4 * i + 4)))
}

/// Words as bytes.
pub open spec fn word_bytes(words: Seq<u32>) -> Seq<u8> {
    Seq::new(4 * words.len(), |i: int| le32(words[i / 4])[i % 4])
}

pub proof fn lemma_word_bytes_concat(a: Seq<u32>, b: Seq<u32>)
    ensures
        word_bytes(a + b) == word_bytes(a) + word_bytes(b),
{
    assert(word_bytes(a + b) =~= word_bytes(a) + word_bytes(b));
}

pub proof fn lemma_word_bytes_push(a: Seq<u32>, x: u32)
    ensures
        word_bytes(a.push(x)) == word_bytes(a) + le32(x),
{
    lemma_le32(x, Seq::empty());
    assert(word_bytes(a.push(x)) =~= word_bytes(a) + le32(x));
}

/// Words come back from their bytes.
pub proof fn lemma_words_round_trip(words: Seq<u32>)
    ensures
        words_of(word_bytes(words)) == words,
        word_bytes(words).len() == 4 * words.len(),
{
    let s = word_bytes(words);
    assert forall|i: int| 0 <= i < words.len() implies words_of(s)[i] == words[i] by {
        lemma_le32(words[i], s);
        assert(s.subrange(4 * i, 4 * i + 4) =~= le32(words[i]));
    }
    assert(words_of(s) =~= words);
}

pub fn push_u16(out: &mut Vec<u8>, x: u16)
    ensures
        final(out)@ == old(out)@ + le16(x),
{
    out.push((x % 256) as u8);
    out.push((x / 256) as u8);
    proof {
        assert(out@ =~= old(out)@ + le16(x));
    }
}

pub fn push_u32(out: &mut Vec<u8>, x: u32)
    ensures
        final(out)@ == old(out)@ + le32(x),
{
    out.push((x % 256) as u8);
    out.push((x / 256 % 256) as u8);
    out.push((x / 65536 % 256) as u8);
    out.push((x / 16777216) as u8);
    proof {
        reveal(le32);
        assert(out@ =~= old(out)@ + le32(x));
    }
}

pub fn push_u64(out: &mut Vec<u8>, x: u64)
    ensures
        final(out)@ == old(out)@ + le64(x),
{
    push_u32(out, (x % 0x1_0000_0000) as u32);
    push_u32(out, (x / 0x1_0000_0000) as u32);
    proof {
        assert(out@ =~= old(out)@ + le64(x));
    }
}

pub fn push_bytes(out: &mut Vec<u8>, more: &[u8])
    ensures
        final(out)@ == old(out)@ + more@,
{
    out.extend_from_slice(more);
    proof {
        assert(out@ =~= old(out)@ + more@);
    }
}

pub fn push_words(out: &mut Vec<u8>, words: &[u32])
    ensures
        final(out)@ == old(out)@ + word_bytes(words@),
{
    let ghost before = out@;
    let mut i: usize = 0;
    proof {
        assert(before + word_bytes(words@.take(0)) =~= before);
    }
    while i < words.len()
        invariant
            i <= words@.len(),
            out@ == before + word_bytes(words@.take(i as int)),
        decreases words@.len() - i,
    {
        push_u32(out, words[i]);
        proof {
            lemma_word_bytes_push(words@.take(i as int), words@[i as int]);
            assert(words@.take(i + 1) =~= words@.take(i as int).push(words@[i as int]));
            assert(out@ =~= before + word_bytes(words@.take(i + 1)));
        }
        i += 1;
    }
    proof {
        assert(words@.take(i as int) =~= words@);
    }
}

pub fn read_u16(s: &[u8], at: usize) -> (r: u16)
    requires
        at + 2 <= s@.len(),
    ensures
        r == value16(s@.subrange(at as int, at + 2)),
{
    let total: usize = s.len();
    s[at] as u16 + 256 * (s[at + 1] as u16)
}

pub fn read_u32(s: &[u8], at: usize) -> (r: u32)
    requires
        at + 4 <= s@.len(),
    ensures
        r == value32(s@.subrange(at as int, at + 4)),
{
    let total: usize = s.len();
    proof {
        reveal(value32);
    }
    s[at] as u32 + 256 * (s[at + 1] as u32) + 65536 * (s[at + 2] as u32) + 16777216 * (s[at
        + 3] as u32)
}

pub fn read_u64(s: &[u8], at: usize) -> (r: u64)
    requires
        at + 8 <= s@.len(),
    ensures
        r == value64(s@.subrange(at as int, at + 8)),
{
    let total: usize = s.len();
    let low: u32 = read_u32(s, at);
    let high: u32 = read_u32(s, at + 4);
    proof {
        let eight = s@.subrange(at as int, at + 8);
        assert(eight.take(4) =~= s@.subrange(at as int, at + 4));
        assert(eight.skip(4) =~= s@.subrange(at + 4, at + 8));
    }
    low as u64 + 0x1_0000_0000 * (high as u64)
}

/// Reads the words of a whole number of words.
pub fn read_words(s: &[u8]) -> (r: Vec<u32>)
    requires
        s@.len() % 4 == 0,
    ensures
        r@ == words_of(s@),
{
    let count: usize = s.len() / 4;
    let mut r: Vec<u32> = Vec::with_capacity(count);
    let mut i: usize = 0;
    while i < count
        invariant
            i <= count,
            count == s@.len() / 4,
            r@ == words_of(s@).take(i as int),
        decreases count - i,
    {
        let total: usize = s.len();
        r.push(read_u32(s, 4 * i));
        i += 1;
        proof {
            assert(r@ =~= words_of(s@).take(i as int));
        }
    }
    proof {
        assert(words_of(s@).take(i as int) =~= words_of(s@));
    }
    r
}

} // verus!
