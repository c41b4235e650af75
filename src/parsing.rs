//! Decoding of the chunk-column wire format: sections, each a block-state
//! container followed by a biome container, each container describing its
//! own representation.
//!
//! The grammar is stated as spec functions over the bytes; each decoder
//! returns exactly what its spec function gives.
use vstd::prelude::*;
use vstd::arithmetic::div_mod::{lemma_fundamental_div_mod, lemma_mod_bound};
use byteorder::{BigEndian, ByteOrder};

use crate::bit_array::{slot_of, word_count, BitArray};
use crate::chunk::{ChunkColumn, ChunkSection};
use crate::coords::{BIOME_SECTION_VOLUME, SECTION_COUNT, SECTION_VOLUME};
use crate::palette::{PaletteContainer, MAX_BITS_PER_BIOME, MAX_BITS_PER_BLOCK};

verus! {

/// Why a buffer could not be decoded.
#[derive(Debug, Clone, Copy, PartialEq, Eq, Structural)]
pub enum ParseError {
    /// The buffer ended inside a field.
    UnexpectedEof,
    /// A VarInt ran past five bytes.
    VarIntTooLong,
    /// A length or count was negative.
    NegativeLength,
    /// A single-value container declared a non-empty data array.
    SingleDataNotEmpty,
    /// An indirect palette length was 0 or larger than the container.
    BadPaletteLength,
    /// A declared word array is larger than what is left of the buffer.
    LongArrayTooLong,
    /// A word array does not have the number of words its container needs.
    WordCountMismatch,
    /// An indirect container holds an index past the end of its palette.
    PaletteIndexOutOfRange,
}

/// The unsigned number that `s` writes most significant byte first.
pub open spec fn be_nat(s: Seq<u8>) -> nat
    decreases s.len(),
{
    if s.len() == 0 {
        0
    } else {
        be_nat(s.drop_last()) * 256 + s.last() as nat
    }
}

/// Relies on byteorder's `BigEndian::read_u64`: the first eight bytes of
/// `buf`, most significant first.
#[verifier::external_body]
fn read_be_u64(buf: &[u8]) -> (r: u64)
    requires
        buf@.len() == 8,
    ensures
        r as nat == be_nat(buf@),
{
    <BigEndian as ByteOrder>::read_u64(buf)
}

/// Relies on byteorder's `BigEndian::read_i16`: the first two bytes of
/// `buf`, most significant first, as a two's-complement number.
#[verifier::external_body]
fn read_be_i16(buf: &[u8]) -> (r: i16)
    requires
        buf@.len() == 2,
    ensures
        r as u16 as nat == be_nat(buf@),
{
    <BigEndian as ByteOrder>::read_i16(buf)
}

/// Decoding of a VarInt at `pos` that has read `k` bytes into `acc`: the
/// 32-bit pattern and the position after it.
pub open spec fn varint_step(buf: Seq<u8>, pos: int, k: nat, acc: u32) -> Result<(u32, int), ParseError>
    decreases 5 - k,
{
    if k >= 5 {
        Err(ParseError::VarIntTooLong)
    } else if pos < 0 || pos + k >= buf.len() {
        Err(ParseError::UnexpectedEof)
    } else {
        let b = buf[pos + k];
        let next = acc | (((b & 0x7f) as u32) << ((7 * k) as u32));
        if b & 0x80 == 0 {
            Ok((next, pos + k + 1))
        } else if k + 1 >= 5 {
            Err(ParseError::VarIntTooLong)
        } else {
            varint_step(buf, pos, k + 1, next)
        }
    }
}

/// The VarInt at `pos`: seven bits per byte, least significant group first,
/// high bit set on every byte but the last, at most five bytes.
pub open spec fn varint_at(buf: Seq<u8>, pos: int) -> Result<(u32, int), ParseError> {
    varint_step(buf, pos, 0, 0)
}

/// A VarInt read as a length: rejected when negative as an `i32`.
pub open spec fn length_at(buf: Seq<u8>, pos: int) -> Result<(nat, int), ParseError> {
    match varint_at(buf, pos) {
        Ok((v, p)) => if v >= 0x8000_0000 {
            Err(ParseError::NegativeLength)
        } else {
            Ok((v as nat, p))
        },
        Err(e) => Err(e),
    }
}

/// `n` VarInts in a row from `pos`, as 32-bit patterns.
pub open spec fn varints_at(buf: Seq<u8>, pos: int, n: nat) -> Result<(Seq<u32>, int), ParseError>
    decreases n,
{
    if n == 0 {
        Ok((Seq::empty(), pos))
    } else {
        match varints_at(buf, pos, (n - 1) as nat) {
            Ok((s, p)) => match varint_at(buf, p) {
                Ok((v, q)) => Ok((s.push(v), q)),
                Err(e) => Err(e),
            },
            Err(e) => Err(e),
        }
    }
}

/// The big-endian `u64` at `p`.
pub open spec fn be_u64_at(buf: Seq<u8>, p: int) -> u64 {
    be_nat(buf.subrange(p, p + 8)) as u64
}

/// `n` big-endian words from `pos`; rejected when they would run past the buffer.
pub open spec fn longs_at(buf: Seq<u8>, pos: int, n: nat) -> Result<(Seq<u64>, int), ParseError> {
    if pos + 8 * n > buf.len() {
        Err(ParseError::LongArrayTooLong)
    } else {
        Ok((Seq::new(n, |i: int| be_u64_at(buf, pos + 8 * i)), pos + 8 * n))
    }
}

proof fn lemma_be_nat_bound(s: Seq<u8>)
    ensures
        be_nat(s) < vstd::arithmetic::power2::pow2(8 * s.len()),
    decreases s.len(),
{
    vstd::arithmetic::power2::lemma2_to64();
    if s.len() > 0 {
        lemma_be_nat_bound(s.drop_last());
        vstd::arithmetic::power2::lemma_pow2_adds(8 * (s.len() - 1) as nat, 8);
    }
}

/// Decodes the VarInt at `pos`: its value as an `i32` and the position after it.
pub fn read_varint(buf: &[u8], pos: usize) -> (r: Result<(i32, usize), ParseError>)
    ensures
        match varint_at(buf@, pos as int) {
            Ok((v, p)) => r matches Ok((x, q)) && x == v as i32 && q == p,
            Err(e) => r == Err::<(i32, usize), ParseError>(e),
        },
        r matches Ok((_, p)) ==> pos < p <= buf@.len(),
{
    let mut k: usize = 0;
    let mut acc: u32 = 0;
    while k < 5
        invariant
            k < 5,
            varint_step(buf@, pos as int, k as nat, acc) == varint_at(buf@, pos as int),
        decreases 5 - k,
    {
        if pos >= buf.len() || k >= buf.len() - pos {
            return Err(ParseError::UnexpectedEof);
        }
        let b = buf[pos + k];
        acc = acc | (((b & 0x7f) as u32) << ((7 * k) as u32));
        if b & 0x80 == 0 {
            return Ok((acc as i32, pos + k + 1));
        }
        if k + 1 >= 5 {
            return Err(ParseError::VarIntTooLong);
        }
        k = k + 1;
    }
    Err(ParseError::VarIntTooLong)
}

proof fn lemma_u32_as_i32(x: u32)
    by (bit_vector)
    ensures
        x >= 0x8000_0000 <==> (x as i32) < 0,
        x < 0x8000_0000 ==> (x as i32) as u32 == x,
        (x as i32) as u32 == x,
        (x as i32) == 0 <==> x == 0,
{
}

/// Decodes a VarInt length at `pos`: its value and the position after it.
fn read_length(buf: &[u8], pos: usize) -> (r: Result<(usize, usize), ParseError>)
    ensures
        match length_at(buf@, pos as int) {
            Ok((v, p)) => r matches Ok((x, q)) && x == v && q == p,
            Err(e) => r == Err::<(usize, usize), ParseError>(e),
        },
        r matches Ok((_, p)) ==> pos < p <= buf@.len(),
{
    match read_varint(buf, pos) {
        Ok((v, p)) => {
            proof {
                if let Ok((raw, _)) = varint_at(buf@, pos as int) {
                    lemma_u32_as_i32(raw);
                }
            }
            if v < 0 {
                Err(ParseError::NegativeLength)
            } else {
                Ok((v as usize, p))
            }
        },
        Err(e) => Err(e),
    }
}

/// Decodes `expected_len` big-endian words at `pos`, after checking that the
/// buffer holds them: the words and the position after them.
pub fn read_long_array(buf: &[u8], pos: usize, expected_len: usize) -> (r: Result<(Vec<u64>, usize), ParseError>)
    ensures
        match longs_at(buf@, pos as int, expected_len as nat) {
            Ok((words, p)) => r matches Ok((v, q)) && v@ == words && q == p,
            Err(e) => r == Err::<(Vec<u64>, usize), ParseError>(e),
        },
        r matches Ok((_, q)) ==> pos <= q <= buf@.len(),
{
    let len = buf.len();
    if pos > len {
        return Err(ParseError::LongArrayTooLong);
    }
    let room = len - pos;
    proof {
        lemma_fundamental_div_mod(room as int, 8);
        lemma_mod_bound(room as int, 8);
    }
    if expected_len > room / 8 {
        return Err(ParseError::LongArrayTooLong);
    }
    let mut longs: Vec<u64> = Vec::new();
    let mut i: usize = 0;
    while i < expected_len
        invariant
            len == buf@.len(),
            pos + 8 * expected_len <= len,
            i <= expected_len,
            longs@.len() == i,
            forall|j: int| 0 <= j < i ==> #[trigger] longs@[j] == be_u64_at(buf@, pos + 8 * j),
        decreases expected_len - i,
    {
        let at = pos + 8 * i;
        let word = read_be_u64(&buf[at..at + 8]);
        proof {
            lemma_be_nat_bound(buf@.subrange(at as int, at + 8));
            vstd::arithmetic::power2::lemma2_to64_rest();
        }
        longs.push(word);
        i = i + 1;
    }
    proof {
        assert(longs@ =~= Seq::new(expected_len as nat, |j: int| be_u64_at(buf@, pos + 8 * j)));
    }
    Ok((longs, pos + 8 * expected_len))
}

/// A container as the wire describes it.
pub enum WireContainer {
    Single(u32),
    Indirect { palette: Seq<u32>, bits: nat, words: Seq<u64> },
    Direct { bits: nat, words: Seq<u64> },
}

/// Every one of the first `capacity` slots of `words` is below `n`.
pub open spec fn indices_below(words: Seq<u64>, bits: nat, capacity: nat, n: nat) -> bool {
    forall|p: int| 0 <= p < capacity ==> (#[trigger] slot_of(words, bits, p) as int) < n
}

/// A single-value container after its first byte: the value, then a data
/// length that must be 0.
pub open spec fn single_at(buf: Seq<u8>, pos: int) -> Result<(WireContainer, int), ParseError> {
    match varint_at(buf, pos) {
        Ok((v, p)) => match varint_at(buf, p) {
            Ok((n, q)) => if n != 0 {
                Err(ParseError::SingleDataNotEmpty)
            } else {
                Ok((WireContainer::Single(v), q))
            },
            Err(e) => Err(e),
        },
        Err(e) => Err(e),
    }
}

/// The index array of an indirect container with palette `pal`: a word
/// count, then the words; the count must fit the width and every index
/// must point into the palette.
pub open spec fn indirect_data_at(
    buf: Seq<u8>,
    pos: int,
    bits: nat,
    capacity: nat,
    pal: Seq<u32>,
) -> Result<(WireContainer, int), ParseError> {
    match length_at(buf, pos) {
        Ok((n, r)) => match longs_at(buf, r, n) {
            Ok((words, end)) => if n != word_count(bits, capacity) {
                Err(ParseError::WordCountMismatch)
            } else if !indices_below(words, bits, capacity, pal.len()) {
                Err(ParseError::PaletteIndexOutOfRange)
            } else {
                Ok((WireContainer::Indirect { palette: pal, bits, words }, end))
            },
            Err(e) => Err(e),
        },
        Err(e) => Err(e),
    }
}

/// An indirect container after its first byte: a palette length from 1 to
/// `capacity`, the palette, then the index array.
pub open spec fn indirect_at(buf: Seq<u8>, pos: int, bits: nat, capacity: nat) -> Result<
    (WireContainer, int),
    ParseError,
> {
    match length_at(buf, pos) {
        Ok((plen, p)) => if plen == 0 || plen > capacity {
            Err(ParseError::BadPaletteLength)
        } else {
            match varints_at(buf, p, plen) {
                Ok((pal, q)) => indirect_data_at(buf, q, bits, capacity, pal),
                Err(e) => Err(e),
            }
        },
        Err(e) => Err(e),
    }
}

/// A direct container after its first byte: a word count that must fit
/// `global_bits`, then the words.
pub open spec fn direct_at(buf: Seq<u8>, pos: int, capacity: nat, global_bits: nat) -> Result<
    (WireContainer, int),
    ParseError,
> {
    match length_at(buf, pos) {
        Ok((n, r)) => match longs_at(buf, r, n) {
            Ok((words, end)) => if n != word_count(global_bits, capacity) {
                Err(ParseError::WordCountMismatch)
            } else {
                Ok((WireContainer::Direct { bits: global_bits, words }, end))
            },
            Err(e) => Err(e),
        },
        Err(e) => Err(e),
    }
}

/// The container at `pos` and the position after it. A first byte of 0
/// means one value; up to `max_indirect`, a palette and an index array of
/// that width; above, an array of `global_bits` wide IDs.
pub open spec fn container_at(
    buf: Seq<u8>,
    pos: int,
    capacity: nat,
    max_indirect: nat,
    global_bits: nat,
) -> Result<(WireContainer, int), ParseError> {
    if pos < 0 || pos >= buf.len() {
        Err(ParseError::UnexpectedEof)
    } else if buf[pos] == 0 {
        single_at(buf, pos + 1)
    } else if buf[pos] <= max_indirect {
        indirect_at(buf, pos + 1, buf[pos] as nat, capacity)
    } else {
        direct_at(buf, pos + 1, capacity, global_bits)
    }
}

/// `r` is what decoding gives where the wire says `w`: the container it
/// describes, well formed, and the same end position; or the same error.
pub open spec fn decodes(
    r: Result<(PaletteContainer, usize), ParseError>,
    w: Result<(WireContainer, int), ParseError>,
    capacity: nat,
) -> bool {
    match w {
        Ok((wc, end)) => r matches Ok((c, q)) && models(c, wc, capacity) && q == end && c.wf()
            && c.sized(capacity),
        Err(e) => r == Err::<(PaletteContainer, usize), ParseError>(e),
    }
}

/// `c` is the container that `w` describes, with `capacity` slots.
pub open spec fn models(c: PaletteContainer, w: WireContainer, capacity: nat) -> bool {
    match (c, w) {
        (PaletteContainer::Single(v), WireContainer::Single(u)) => v == u,
        (
            PaletteContainer::Indirect { palette, data },
            WireContainer::Indirect { palette: pal, bits, words },
        ) => {
            &&& palette@ == pal
            &&& data.bits() == bits
            &&& data.words() == words
            &&& data.capacity() == capacity
        },
        (PaletteContainer::Direct(data), WireContainer::Direct { bits, words }) => {
            &&& data.bits() == bits
            &&& data.words() == words
            &&& data.capacity() == capacity
        },
        _ => false,
    }
}

proof fn lemma_varints_err(buf: Seq<u8>, pos: int, m: nat, n: nat, e: ParseError)
    requires
        m <= n,
        varints_at(buf, pos, m) == Err::<(Seq<u32>, int), ParseError>(e),
    ensures
        varints_at(buf, pos, n) == Err::<(Seq<u32>, int), ParseError>(e),
    decreases n,
{
    if n > m {
        lemma_varints_err(buf, pos, m, (n - 1) as nat, e);
    }
}

fn parse_single(buf: &[u8], pos: usize) -> (r: Result<(PaletteContainer, usize), ParseError>)
    ensures
        decodes(r, single_at(buf@, pos as int), 0),
        r matches Ok((_, q)) ==> pos < q <= buf@.len(),
{
    let (value, p2) = match read_varint(buf, pos) {
        Ok(x) => x,
        Err(e) => return Err(e),
    };
    let (n, p3) = match read_varint(buf, p2) {
        Ok(x) => x,
        Err(e) => return Err(e),
    };
    proof {
        if let Ok((raw, _)) = varint_at(buf@, pos as int) {
            lemma_u32_as_i32(raw);
        }
        if let Ok((raw, _)) = varint_at(buf@, p2 as int) {
            lemma_u32_as_i32(raw);
        }
    }
    if n != 0 {
        return Err(ParseError::SingleDataNotEmpty);
    }
    Ok((PaletteContainer::new_single(value as u32), p3))
}

fn parse_indirect_data(
    buf: &[u8],
    pos: usize,
    bits: usize,
    capacity: usize,
    palette: Vec<u32>,
) -> (r: Result<(PaletteContainer, usize), ParseError>)
    requires
        1 <= bits <= 32,
        pos <= buf@.len(),
    ensures
        decodes(r, indirect_data_at(buf@, pos as int, bits as nat, capacity as nat, palette@), capacity as nat),
        r matches Ok((_, q)) ==> pos < q <= buf@.len(),
{
    let ghost pal = palette@;
    let plen = palette.len();
    let (n, p4) = match read_length(buf, pos) {
        Ok(x) => x,
        Err(e) => return Err(e),
    };
    let (words, p5) = match read_long_array(buf, p4, n) {
        Ok(x) => x,
        Err(e) => return Err(e),
    };
    let ghost words_view = words@;
    proof {
        assert(length_at(buf@, pos as int) == Ok::<(nat, int), ParseError>((n as nat, p4 as int)));
        assert(longs_at(buf@, p4 as int, n as nat) == Ok::<(Seq<u64>, int), ParseError>(
            (words_view, p5 as int),
        ));
    }
    let data = match BitArray::from_data(bits, capacity, words) {
        Some(d) => d,
        None => return Err(ParseError::WordCountMismatch),
    };
    proof {
        data.lemma_shape();
        vstd::arithmetic::power2::lemma2_to64();
        if bits < 32 {
            vstd::arithmetic::power2::lemma_pow2_strictly_increases(bits as nat, 32);
        }
    }
    let mut q: usize = 0;
    while q < capacity
        invariant
            data.wf(),
            data.bits() == bits,
            bits <= 32,
            data.capacity() == capacity,
            data.words() == words_view,
            vstd::arithmetic::power2::pow2(bits as nat) <= 0x100000000,
            forall|i: int|
                0 <= i < capacity ==> (#[trigger] data@[i] as nat) < vstd::arithmetic::power2::pow2(
                    data.bits(),
                ),
            q <= capacity,
            plen == pal.len(),
            pal == palette@,
            forall|j: int| 0 <= j < q ==> (#[trigger] slot_of(words_view, bits as nat, j) as int) < plen,
            length_at(buf@, pos as int) == Ok::<(nat, int), ParseError>((n as nat, p4 as int)),
            longs_at(buf@, p4 as int, n as nat) == Ok::<(Seq<u64>, int), ParseError>(
                (words_view, p5 as int),
            ),
            n == word_count(bits as nat, capacity as nat),
        decreases capacity - q,
    {
        if data.get(q) as usize >= plen {
            proof {
                assert(data@[q as int] == slot_of(words_view, bits as nat, q as int));
                assert(!indices_below(words_view, bits as nat, capacity as nat, pal.len()));
                assert(indirect_data_at(buf@, pos as int, bits as nat, capacity as nat, pal)
                    == Err::<(WireContainer, int), ParseError>(ParseError::PaletteIndexOutOfRange));
            }
            return Err(ParseError::PaletteIndexOutOfRange);
        }
        q = q + 1;
    }
    Ok((PaletteContainer::new_indirect(palette, data), p5))
}

fn parse_indirect(buf: &[u8], pos: usize, bits: usize, capacity: usize) -> (r: Result<(PaletteContainer, usize), ParseError>)
    requires
        1 <= bits <= 32,
    ensures
        decodes(r, indirect_at(buf@, pos as int, bits as nat, capacity as nat), capacity as nat),
        r matches Ok((_, q)) ==> pos < q <= buf@.len(),
{
    let (plen, p2) = match read_length(buf, pos) {
        Ok(x) => x,
        Err(e) => return Err(e),
    };
    if plen == 0 || plen > capacity {
        return Err(ParseError::BadPaletteLength);
    }
    proof {
        assert(length_at(buf@, pos as int) == Ok::<(nat, int), ParseError>((plen as nat, p2 as int)));
    }
    let mut palette: Vec<u32> = Vec::new();
    let mut p = p2;
    let mut i: usize = 0;
    while i < plen
        invariant
            i <= plen,
            pos < p2 <= p <= buf@.len(),
            length_at(buf@, pos as int) == Ok::<(nat, int), ParseError>((plen as nat, p2 as int)),
            0 < plen <= capacity,
            varints_at(buf@, p2 as int, i as nat) == Ok::<(Seq<u32>, int), ParseError>(
                (palette@, p as int),
            ),
        decreases plen - i,
    {
        match read_varint(buf, p) {
            Ok((v, q)) => {
                proof {
                    if let Ok((raw, _)) = varint_at(buf@, p as int) {
                        lemma_u32_as_i32(raw);
                    }
                }
                palette.push(v as u32);
                p = q;
            },
            Err(e) => {
                proof {
                    assert(varint_at(buf@, p as int) == Err::<(u32, int), ParseError>(e));
                    assert(varints_at(buf@, p2 as int, (i + 1) as nat) == Err::<(Seq<u32>, int), ParseError>(e));
                    lemma_varints_err(buf@, p2 as int, (i + 1) as nat, plen as nat, e);
                }
                return Err(e);
            },
        }
        i = i + 1;
    }
    parse_indirect_data(buf, p, bits, capacity, palette)
}

fn parse_direct(buf: &[u8], pos: usize, capacity: usize, bits_direct: usize) -> (r: Result<(PaletteContainer, usize), ParseError>)
    requires
        bits_direct <= 64,
    ensures
        decodes(r, direct_at(buf@, pos as int, capacity as nat, bits_direct as nat), capacity as nat),
        r matches Ok((_, q)) ==> pos < q <= buf@.len(),
{
    let (n, p2) = match read_length(buf, pos) {
        Ok(x) => x,
        Err(e) => return Err(e),
    };
    let (words, p3) = match read_long_array(buf, p2, n) {
        Ok(x) => x,
        Err(e) => return Err(e),
    };
    match BitArray::from_data(bits_direct, capacity, words) {
        Some(d) => Ok((PaletteContainer::new_direct(d), p3)),
        None => Err(ParseError::WordCountMismatch),
    }
}

/// Decodes the container at `pos` (see `container_at`): the container and
/// the position after it.
pub fn parse_palette_container(
    buf: &[u8],
    pos: usize,
    capacity: usize,
    max_bits_indirect: usize,
    bits_direct: usize,
) -> (r: Result<(PaletteContainer, usize), ParseError>)
    requires
        max_bits_indirect <= 32,
        bits_direct <= 64,
    ensures
        decodes(
            r,
            container_at(buf@, pos as int, capacity as nat, max_bits_indirect as nat, bits_direct as nat),
            capacity as nat,
        ),
        r matches Ok((_, q)) ==> pos < q <= buf@.len(),
{
    if pos >= buf.len() {
        return Err(ParseError::UnexpectedEof);
    }
    let bpp = buf[pos] as usize;
    if bpp == 0 {
        parse_single(buf, pos + 1)
    } else if bpp <= max_bits_indirect {
        parse_indirect(buf, pos + 1, bpp, capacity)
    } else {
        parse_direct(buf, pos + 1, capacity, bits_direct)
    }
}

/// A section as the wire describes it.
pub struct WireSection {
    pub solid: i16,
    pub blocks: WireContainer,
    pub biomes: WireContainer,
}

/// The big-endian `i16` at `pos` and the position after it.
pub open spec fn i16_at(buf: Seq<u8>, pos: int) -> Result<(i16, int), ParseError> {
    if pos < 0 || pos + 2 > buf.len() {
        Err(ParseError::UnexpectedEof)
    } else {
        Ok(((be_nat(buf.subrange(pos, pos + 2)) as u16) as i16, pos + 2))
    }
}

/// The section at `pos`: its solid count, its block-state container (4096
/// slots) and its biome container (64 slots).
pub open spec fn section_wire_at(buf: Seq<u8>, pos: int, block_bits: nat, biome_bits: nat) -> Result<
    (WireSection, int),
    ParseError,
> {
    match i16_at(buf, pos) {
        Ok((solid, p)) => match container_at(
            buf,
            p,
            SECTION_VOLUME as nat,
            MAX_BITS_PER_BLOCK as nat,
            block_bits,
        ) {
            Ok((blocks, q)) => match container_at(
                buf,
                q,
                BIOME_SECTION_VOLUME as nat,
                MAX_BITS_PER_BIOME as nat,
                biome_bits,
            ) {
                Ok((biomes, r)) => Ok((WireSection { solid, blocks, biomes }, r)),
                Err(e) => Err(e),
            },
            Err(e) => Err(e),
        },
        Err(e) => Err(e),
    }
}

/// `s` is the section that `w` describes.
pub open spec fn section_models(s: ChunkSection, w: WireSection) -> bool {
    &&& s.solid() == w.solid
    &&& models(s.blocks(), w.blocks, SECTION_VOLUME as nat)
    &&& models(s.biome_grid(), w.biomes, BIOME_SECTION_VOLUME as nat)
}

/// The sections from `pos` on, for slots `i` and up: one per slot while
/// bytes remain, stopping quietly where the buffer ends inside a field.
pub open spec fn sections_from(buf: Seq<u8>, pos: int, i: nat, block_bits: nat, biome_bits: nat) -> Result<
    Seq<WireSection>,
    ParseError,
>
    decreases SECTION_COUNT - i,
{
    if i >= SECTION_COUNT || pos >= buf.len() {
        Ok(Seq::empty())
    } else {
        match section_wire_at(buf, pos, block_bits, biome_bits) {
            Ok((w, end)) => match sections_from(buf, end, i + 1, block_bits, biome_bits) {
                Ok(rest) => Ok(seq![w] + rest),
                Err(e) => Err(e),
            },
            Err(ParseError::UnexpectedEof) => Ok(Seq::empty()),
            Err(e) => Err(e),
        }
    }
}

/// The sections of a whole column buffer, lowest first.
pub open spec fn column_wire(buf: Seq<u8>, block_bits: nat, biome_bits: nat) -> Result<
    Seq<WireSection>,
    ParseError,
> {
    sections_from(buf, 0, 0, block_bits, biome_bits)
}

proof fn lemma_i16_roundtrip(x: i16)
    by (bit_vector)
    ensures
        (x as u16) as i16 == x,
{
}

proof fn lemma_sections_len(buf: Seq<u8>, pos: int, i: nat, block_bits: nat, biome_bits: nat)
    requires
        i <= SECTION_COUNT,
    ensures
        sections_from(buf, pos, i, block_bits, biome_bits) matches Ok(secs) ==> i + secs.len()
            <= SECTION_COUNT,
    decreases SECTION_COUNT - i,
{
    if i < SECTION_COUNT && pos < buf.len() {
        if let Ok((w, end)) = section_wire_at(buf, pos, block_bits, biome_bits) {
            lemma_sections_len(buf, end, i + 1, block_bits, biome_bits);
            if let Ok(rest) = sections_from(buf, end, i + 1, block_bits, biome_bits) {
                assert((seq![w] + rest).len() == 1 + rest.len());
            }
        }
    }
}

/// Decodes the section at `pos` (see `section_wire_at`): the section and
/// the position after it.
pub fn parse_chunk_section(buf: &[u8], pos: usize, global_block_bits: usize, global_biome_bits: usize) -> (r: Result<
    (ChunkSection, usize),
    ParseError,
>)
    requires
        global_block_bits <= 64,
        global_biome_bits <= 64,
    ensures
        match section_wire_at(buf@, pos as int, global_block_bits as nat, global_biome_bits as nat) {
            Ok((w, end)) => r matches Ok((s, q)) && section_models(s, w) && s.wf() && q == end,
            Err(e) => r == Err::<(ChunkSection, usize), ParseError>(e),
        },
        r matches Ok((_, q)) ==> pos < q <= buf@.len(),
{
    if pos >= buf.len() || buf.len() - pos < 2 {
        return Err(ParseError::UnexpectedEof);
    }
    let solid_block_count = read_be_i16(&buf[pos..pos + 2]);
    proof {
        lemma_i16_roundtrip(solid_block_count);
    }
    let (block_states, p2) = match parse_palette_container(
        buf,
        pos + 2,
        SECTION_VOLUME,
        MAX_BITS_PER_BLOCK,
        global_block_bits,
    ) {
        Ok(x) => x,
        Err(e) => return Err(e),
    };
    let (biomes, p3) = match parse_palette_container(
        buf,
        p2,
        BIOME_SECTION_VOLUME,
        MAX_BITS_PER_BIOME,
        global_biome_bits,
    ) {
        Ok(x) => x,
        Err(e) => return Err(e),
    };
    Ok((ChunkSection::new(block_states, biomes, solid_block_count), p3))
}

/// Decodes a whole column buffer (see `column_wire`): section `j` of the
/// result is the `j`-th section of the buffer, and the slots past the last
/// one are empty.
pub fn parse_column(buf: &[u8], global_block_bits: usize, global_biome_bits: usize) -> (r: Result<ChunkColumn, ParseError>)
    requires
        global_block_bits <= 64,
        global_biome_bits <= 64,
    ensures
        match column_wire(buf@, global_block_bits as nat, global_biome_bits as nat) {
            Ok(secs) => r matches Ok(col) && {
                &&& col.wf()
                &&& secs.len() <= SECTION_COUNT
                &&& forall|j: int|
                    0 <= j < secs.len() ==> (#[trigger] col.sections@[j] matches Some(s)
                        && section_models(s, secs[j]))
                &&& forall|j: int| secs.len() <= j < SECTION_COUNT ==> #[trigger] col.sections@[j] is None
            },
            Err(e) => r == Err::<ChunkColumn, ParseError>(e),
        },
{
    let ghost gb = global_block_bits as nat;
    let ghost gbi = global_biome_bits as nat;
    let mut column = ChunkColumn::new();
    let mut pos: usize = 0;
    let mut i: usize = 0;
    let ghost mut done: Seq<WireSection> = Seq::empty();
    proof {
        assert(done + Seq::<WireSection>::empty() =~= Seq::<WireSection>::empty());
    }
    while i < SECTION_COUNT
        invariant
            global_block_bits <= 64,
            global_biome_bits <= 64,
            gb == global_block_bits,
            gbi == global_biome_bits,
            column.wf(),
            i <= SECTION_COUNT,
            pos <= buf@.len(),
            done.len() == i,
            forall|j: int|
                0 <= j < i ==> (#[trigger] column.sections@[j] matches Some(s) && section_models(s, done[j])),
            forall|j: int| i <= j < SECTION_COUNT ==> #[trigger] column.sections@[j] is None,
            column_wire(buf@, gb, gbi) == match sections_from(buf@, pos as int, i as nat, gb, gbi) {
                Ok(rest) => Ok::<Seq<WireSection>, ParseError>(done + rest),
                Err(e) => Err::<Seq<WireSection>, ParseError>(e),
            },
        ensures
            column.wf(),
            done.len() == i,
            i <= SECTION_COUNT,
            forall|j: int|
                0 <= j < i ==> (#[trigger] column.sections@[j] matches Some(s) && section_models(s, done[j])),
            forall|j: int| i <= j < SECTION_COUNT ==> #[trigger] column.sections@[j] is None,
            column_wire(buf@, gb, gbi) == Ok::<Seq<WireSection>, ParseError>(done),
        decreases SECTION_COUNT - i,
    {
        if pos >= buf.len() {
            proof {
                assert(done + Seq::<WireSection>::empty() =~= done);
            }
            break;
        }
        match parse_chunk_section(buf, pos, global_block_bits, global_biome_bits) {
            Ok((section, next)) => {
                let ghost w = match section_wire_at(buf@, pos as int, gb, gbi) {
                    Ok((w, _)) => w,
                    Err(_) => arbitrary(),
                };
                proof {
                    let rest_after = sections_from(buf@, next as int, (i + 1) as nat, gb, gbi);
                    if let Ok(rest) = rest_after {
                        assert(done + (seq![w] + rest) =~= done.push(w) + rest);
                    }
                }
                let ghost before = column.sections@;
                column.sections.set(i, Some(section));
                pos = next;
                proof {
                    assert(column.sections@ == before.update(i as int, Some(section)));
                    done = done.push(w);
                    assert forall|j: int| 0 <= j < i + 1 implies (#[trigger] column.sections@[j] matches Some(s)
                        && section_models(s, done[j])) by {
                        if j < i {
                            assert(column.sections@[j] == before[j]);
                        }
                    }
                }
            },
            Err(ParseError::UnexpectedEof) => {
                proof {
                    assert(done + Seq::<WireSection>::empty() =~= done);
                }
                break;
            },
            Err(e) => {
                return Err(e);
            },
        }
        i = i + 1;
        proof {
            if i == SECTION_COUNT {
                assert(done + Seq::<WireSection>::empty() =~= done);
            }
        }
    }
    proof {
        lemma_sections_len(buf@, 0, 0, gb, gbi);
    }
    Ok(column)
}

} // verus!
