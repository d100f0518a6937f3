//! RaptorQR transport protocol.
//!
//! Fixed 8-byte header (little-endian):
//! | 0 | 1 | magic 0x51 ('Q')
//! | 1 | 4 | packed_word (see below)
//! | 5 | 3 | data_length (24-bit)
//! | 8 | N | payload
//! | 8+N | 4 | CRC32C over bytes 0..8+N
//!
//! packed_word bits:
//!   0-11   generationIndex
//!   12-23  totalGenerations
//!   24-28  symbolIndex (31 = RaptorQ packet)
//!   29     isText
//!   30     isLastGeneration
//!   31     compressed (deflate-raw)
use vstd::prelude::*;

verus! {

pub const MAGIC_BYTE: u8 = 0x51;

pub const HEADER_SIZE: usize = 8;

pub const CRC32C_SIZE: usize = 4;

pub const RAPTORQ_SYMBOL_INDEX: u32 = 31;

/// The reflected Castagnoli polynomial.
pub const CRC32C_POLY: u32 = 0x82f6_3b78;

/// Decoded transport header.
#[derive(Debug, Clone, Copy, PartialEq, Eq, Structural)]
pub struct PacketHeader {
    pub generation_index: u32,
    pub total_generations: u32,
    pub symbol_index: u32,
    pub is_text: bool,
    pub is_last_generation: bool,
    pub compressed: bool,
    pub data_length: u32,
}

/// A parsed transport packet: header + payload (CRC already verified).
#[derive(Debug, PartialEq, Eq)]
pub struct Packet {
    pub header: PacketHeader,
    pub payload: Vec<u8>,
}

#[derive(Debug, Clone, Copy, PartialEq, Eq, Structural)]
pub enum ParseError {
    TooShort,
    BadMagic,
    CrcMismatch,
}

// ─── CRC32C (Castagnoli, reflected 0x82F63B78) ──────────────────────────────

/// One bit of the reflected CRC shift register.
pub open spec fn crc_shift(c: u32) -> u32 {
    if c & 1 == 1 {
        (c >> 1) ^ CRC32C_POLY
    } else {
        c >> 1
    }
}

/// `n` bits of the reflected CRC shift register.
pub open spec fn crc_shifts(c: u32, n: nat) -> u32
    decreases n,
{
    if n == 0 {
        c
    } else {
        crc_shifts(crc_shift(c), (n - 1) as nat)
    }
}

/// Eight shift steps, written out (the unit of a byte update).
pub open spec fn crc_shift8(c: u32) -> u32 {
    crc_shift(crc_shift(crc_shift(crc_shift(crc_shift(crc_shift(crc_shift(crc_shift(c))))))))
}

/// The bitwise CRC register update for one input byte.
pub open spec fn crc_byte(c: u32, b: u8) -> u32 {
    crc_shifts(c ^ (b as u32), 8)
}

/// The CRC register after feeding `data` bit by bit, starting from `init`.
pub open spec fn crc_register(init: u32, data: Seq<u8>) -> u32
    decreases data.len(),
{
    if data.len() == 0 {
        init
    } else {
        crc_byte(crc_register(init, data.drop_last()), data.last())
    }
}

/// CRC32C with init 0xFFFFFFFF and final XOR 0xFFFFFFFF.
pub open spec fn spec_crc32c(data: Seq<u8>) -> u32 {
    crc_register(0xffff_ffff, data) ^ 0xffff_ffff
}

proof fn lemma_crc_shifts_8(c: u32)
    ensures
        crc_shifts(c, 8) == crc_shift8(c),
{
    reveal_with_fuel(crc_shifts, 9);
}

/// A byte update only depends on the low byte through the table: the
/// high bits are shifted out unchanged.
proof fn lemma_crc_shift8_split(x: u32)
    ensures
        crc_shift8(x) == crc_shift8(x & 0xff) ^ (x >> 8),
{
    assert(crc_shift8(x) == crc_shift8(x & 0xff) ^ (x >> 8)) by (bit_vector);
}

/// Table-driven byte update equals the bitwise definition.
proof fn lemma_crc_byte_table(c: u32, b: u8)
    ensures
        crc_byte(c, b) == crc_shifts((c ^ (b as u32)) & 0xff, 8) ^ (c >> 8),
{
    lemma_crc_shifts_8(c ^ (b as u32));
    lemma_crc_shifts_8((c ^ (b as u32)) & 0xff);
    lemma_crc_shift8_split(c ^ (b as u32));
    let bb = b as u32;
    assert((c ^ bb) >> 8 == c >> 8) by (bit_vector)
        requires
            bb < 256,
    ;
}

/// The CRC table entry for byte value `i`: eight register shifts.
fn crc_table_entry(i: u32) -> (e: u32)
    ensures
        e == crc_shifts(i, 8),
{
    let mut crc = i;
    let mut k: u32 = 0;
    while k < 8
        invariant
            k <= 8,
            crc_shifts(i, 8) == crc_shifts(crc, (8 - k) as nat),
        decreases 8 - k,
    {
        let ghost before = crc;
        assert((crc & 1 != 0) == (crc & 1 == 1)) by (bit_vector);
        crc = if crc & 1 != 0 {
            (crc >> 1) ^ CRC32C_POLY
        } else {
            crc >> 1
        };
        assert(crc == crc_shift(before));
        assert(crc_shifts(before, (8 - k) as nat) == crc_shifts(crc, (8 - k - 1) as nat));
        k = k + 1;
    }
    crc
}

/// The 256-entry CRC32C lookup table.
fn table() -> (t: Vec<u32>)
    ensures
        t@.len() == 256,
        forall|i: int| 0 <= i < 256 ==> #[trigger] t@[i] == crc_shifts(i as u32, 8),
{
    let mut t: Vec<u32> = Vec::with_capacity(256);
    let mut i: u32 = 0;
    while i < 256
        invariant
            i <= 256,
            t@.len() == i,
            forall|j: int| 0 <= j < i ==> #[trigger] t@[j] == crc_shifts(j as u32, 8),
        decreases 256 - i,
    {
        let e = crc_table_entry(i);
        t.push(e);
        i = i + 1;
    }
    t
}

/// CRC32C over `data` with standard init 0xFFFFFFFF and final XOR 0xFFFFFFFF.
pub fn crc32c(data: &[u8]) -> (r: u32)
    ensures
        r == spec_crc32c(data@),
{
    let t = table();
    let mut crc: u32 = 0xffff_ffff;
    let mut i: usize = 0;
    while i < data.len()
        invariant
            i <= data@.len(),
            t@.len() == 256,
            forall|j: int| 0 <= j < 256 ==> #[trigger] t@[j] == crc_shifts(j as u32, 8),
            crc == crc_register(0xffff_ffff, data@.take(i as int)),
        decreases data@.len() - i,
    {
        let b = data[i];
        let idx = (crc ^ b as u32) & 0xff;
        assert(idx < 256) by (bit_vector)
            requires
                idx == (crc ^ b as u32) & 0xff,
        ;
        proof {
            lemma_crc_byte_table(crc, b);
            assert(data@.take(i + 1).drop_last() =~= data@.take(i as int));
        }
        crc = t[idx as usize] ^ (crc >> 8);
        i = i + 1;
    }
    proof {
        assert(data@.take(data@.len() as int) =~= data@);
    }
    crc ^ 0xffff_ffff
}

// ─── Packet layout ──────────────────────────────────────────────────────────

/// Little-endian 32-bit value of `d[i..i+4]`.
pub open spec fn le_u32_at(d: Seq<u8>, i: int) -> u32 {
    (d[i] as u32) | ((d[i + 1] as u32) << 8) | ((d[i + 2] as u32) << 16) | ((d[i + 3] as u32) << 24)
}

/// Little-endian 24-bit value of `d[i..i+3]`.
pub open spec fn le_u24_at(d: Seq<u8>, i: int) -> u32 {
    ((d[i] as u32) | ((d[i + 1] as u32) << 8) | ((d[i + 2] as u32) << 16)) & 0xff_ffff
}

/// The header fields packed in a transport packet's first 8 bytes.
pub open spec fn header_of(d: Seq<u8>) -> PacketHeader {
    let w = le_u32_at(d, 1);
    PacketHeader {
        generation_index: w & 0xfff,
        total_generations: (w >> 12) & 0xfff,
        symbol_index: (w >> 24) & 0x1f,
        is_text: (w >> 29) & 1 == 1,
        is_last_generation: (w >> 30) & 1 == 1,
        compressed: (w >> 31) & 1 == 1,
        data_length: le_u24_at(d, 5),
    }
}

/// What parsing a transport packet yields: the header and the payload, or
/// the first check that fails (length, then magic, then CRC).
pub open spec fn spec_parse_packet(d: Seq<u8>) -> Result<(PacketHeader, Seq<u8>), ParseError> {
    if d.len() < HEADER_SIZE + CRC32C_SIZE {
        Err(ParseError::TooShort)
    } else if d[0] != MAGIC_BYTE {
        Err(ParseError::BadMagic)
    } else if spec_crc32c(d.take(d.len() - 4)) != le_u32_at(d, d.len() - 4) {
        Err(ParseError::CrcMismatch)
    } else {
        Ok((header_of(d), d.subrange(HEADER_SIZE as int, d.len() - CRC32C_SIZE)))
    }
}

impl Packet {
    pub open spec fn view_pair(&self) -> (PacketHeader, Seq<u8>) {
        (self.header, self.payload@)
    }
}

/// Parse and CRC-verify a complete transport packet.
pub fn parse_packet(data: &[u8]) -> (r: Result<Packet, ParseError>)
    ensures
        match r {
            Ok(p) => spec_parse_packet(data@) == Ok::<(PacketHeader, Seq<u8>), ParseError>(
                p.view_pair(),
            ),
            Err(e) => spec_parse_packet(data@) == Err::<(PacketHeader, Seq<u8>), ParseError>(e),
        },
{
    let n = data.len();
    if n < HEADER_SIZE + CRC32C_SIZE {
        return Err(ParseError::TooShort);
    }
    if data[0] != MAGIC_BYTE {
        return Err(ParseError::BadMagic);
    }
    let stored_crc = (data[n - 4] as u32) | ((data[n - 3] as u32) << 8) | ((data[n - 2] as u32)
        << 16) | ((data[n - 1] as u32) << 24);
    let (body, _) = data.split_at(n - 4);
    if crc32c(body) != stored_crc {
        return Err(ParseError::CrcMismatch);
    }
    let word = (data[1] as u32) | ((data[2] as u32) << 8) | ((data[3] as u32) << 16) | ((
    data[4] as u32) << 24);
    let header = PacketHeader {
        generation_index: word & 0xfff,
        total_generations: (word >> 12) & 0xfff,
        symbol_index: (word >> 24) & 0x1f,
        is_text: (word >> 29) & 1 == 1,
        is_last_generation: (word >> 30) & 1 == 1,
        compressed: (word >> 31) & 1 == 1,
        data_length: ((data[5] as u32) | ((data[6] as u32) << 8) | ((data[7] as u32) << 16))
            & 0xff_ffff,
    };
    let payload = copy_range(data, HEADER_SIZE, n - CRC32C_SIZE);
    Ok(Packet { header, payload })
}

// ─── The sender's layout, and the round-trip law ───────────────────────────

/// Little-endian bytes of a 32-bit value.
pub open spec fn le_u32_bytes(v: u32) -> Seq<u8> {
    seq![(v & 0xff) as u8, ((v >> 8) & 0xff) as u8, ((v >> 16) & 0xff) as u8, ((v >> 24) & 0xff) as u8]
}

/// Little-endian bytes of a 24-bit value.
pub open spec fn le_u24_bytes(v: u32) -> Seq<u8> {
    seq![(v & 0xff) as u8, ((v >> 8) & 0xff) as u8, ((v >> 16) & 0xff) as u8]
}

pub open spec fn flag_bit(b: bool) -> u32 {
    if b {
        1
    } else {
        0
    }
}

/// The packed header word the sender builds from the header fields.
pub open spec fn packed_word_of(h: PacketHeader) -> u32 {
    (h.generation_index & 0xfff) | ((h.total_generations & 0xfff) << 12) | ((h.symbol_index & 0x1f)
        << 24) | (flag_bit(h.is_text) << 29) | (flag_bit(h.is_last_generation) << 30) | (flag_bit(
        h.compressed,
    ) << 31)
}

/// A header whose fields fit their bit widths.
pub open spec fn header_fits(h: PacketHeader) -> bool {
    &&& h.generation_index < 0x1000
    &&& h.total_generations < 0x1000
    &&& h.symbol_index < 0x20
    &&& h.data_length < 0x100_0000
}

/// The transport packet the sender emits for `h` and `payload`.
pub open spec fn encode_packet(h: PacketHeader, payload: Seq<u8>) -> Seq<u8> {
    let body = seq![MAGIC_BYTE] + le_u32_bytes(packed_word_of(h)) + le_u24_bytes(h.data_length)
        + payload;
    body + le_u32_bytes(spec_crc32c(body))
}

proof fn lemma_le_u32_roundtrip(v: u32)
    ensures
        le_u32_at(le_u32_bytes(v), 0) == v,
{
    let b0 = (v & 0xff) as u8;
    let b1 = ((v >> 8) & 0xff) as u8;
    let b2 = ((v >> 16) & 0xff) as u8;
    let b3 = ((v >> 24) & 0xff) as u8;
    assert((b0 as u32) | ((b1 as u32) << 8) | ((b2 as u32) << 16) | ((b3 as u32) << 24) == v)
        by (bit_vector)
        requires
            b0 == (v & 0xff) as u8,
            b1 == ((v >> 8) & 0xff) as u8,
            b2 == ((v >> 16) & 0xff) as u8,
            b3 == ((v >> 24) & 0xff) as u8,
    ;
}

proof fn lemma_le_u24_roundtrip(v: u32)
    requires
        v < 0x100_0000,
    ensures
        le_u24_at(le_u24_bytes(v), 0) == v,
{
    let b0 = (v & 0xff) as u8;
    let b1 = ((v >> 8) & 0xff) as u8;
    let b2 = ((v >> 16) & 0xff) as u8;
    assert(((b0 as u32) | ((b1 as u32) << 8) | ((b2 as u32) << 16)) & 0xff_ffff == v)
        by (bit_vector)
        requires
            v < 0x100_0000,
            b0 == (v & 0xff) as u8,
            b1 == ((v >> 8) & 0xff) as u8,
            b2 == ((v >> 16) & 0xff) as u8,
    ;
}

proof fn lemma_packed_word_fields(h: PacketHeader)
    requires
        header_fits(h),
    ensures
        ({
            let w = packed_word_of(h);
            &&& w & 0xfff == h.generation_index
            &&& (w >> 12) & 0xfff == h.total_generations
            &&& (w >> 24) & 0x1f == h.symbol_index
            &&& ((w >> 29) & 1 == 1) == h.is_text
            &&& ((w >> 30) & 1 == 1) == h.is_last_generation
            &&& ((w >> 31) & 1 == 1) == h.compressed
        }),
{
    let g = h.generation_index;
    let t = h.total_generations;
    let s = h.symbol_index;
    let a = flag_bit(h.is_text);
    let b = flag_bit(h.is_last_generation);
    let c = flag_bit(h.compressed);
    let w = packed_word_of(h);
    assert({
        &&& w & 0xfff == g
        &&& (w >> 12) & 0xfff == t
        &&& (w >> 24) & 0x1f == s
        &&& ((w >> 29) & 1 == 1) == (a == 1)
        &&& ((w >> 30) & 1 == 1) == (b == 1)
        &&& ((w >> 31) & 1 == 1) == (c == 1)
    }) by (bit_vector)
        requires
            g < 0x1000,
            t < 0x1000,
            s < 0x20,
            a <= 1,
            b <= 1,
            c <= 1,
            w == (g & 0xfff) | ((t & 0xfff) << 12) | ((s & 0x1f) << 24) | (a << 29) | (b << 30) | (c
                << 31),
    ;
}

/// Round trip: parsing the packet that the sender builds from a header
/// (whose fields fit their bit widths) and any payload gives back exactly
/// that header and that payload.
pub proof fn lemma_parse_encode_roundtrip(h: PacketHeader, payload: Seq<u8>)
    requires
        header_fits(h),
    ensures
        spec_parse_packet(encode_packet(h, payload)) == Ok::<(PacketHeader, Seq<u8>), ParseError>(
            (h, payload),
        ),
{
    let w = packed_word_of(h);
    let body = seq![MAGIC_BYTE] + le_u32_bytes(w) + le_u24_bytes(h.data_length) + payload;
    let crc = spec_crc32c(body);
    let d = encode_packet(h, payload);
    assert(d == body + le_u32_bytes(crc));
    assert(d.len() == payload.len() + 12);
    assert(d.take(d.len() - 4) =~= body);
    lemma_le_u32_roundtrip(crc);
    assert(d.subrange(d.len() - 4, d.len() as int) =~= le_u32_bytes(crc));
    assert(le_u32_at(d, d.len() - 4) == le_u32_at(le_u32_bytes(crc), 0));
    lemma_le_u32_roundtrip(w);
    assert(le_u32_at(d, 1) == le_u32_at(le_u32_bytes(w), 0));
    lemma_le_u24_roundtrip(h.data_length);
    assert(le_u24_at(d, 5) == le_u24_at(le_u24_bytes(h.data_length), 0));
    lemma_packed_word_fields(h);
    assert(header_of(d) == h);
    assert(d.subrange(HEADER_SIZE as int, d.len() - CRC32C_SIZE) =~= payload);
}

/// The byte contents of a list of byte vectors.
pub open spec fn byte_views(v: Seq<Vec<u8>>) -> Seq<Seq<u8>> {
    v.map_values(|b: Vec<u8>| b@)
}

/// A copy of `data[start..end]`.
pub fn copy_range(data: &[u8], start: usize, end: usize) -> (r: Vec<u8>)
    requires
        start <= end <= data@.len(),
    ensures
        r@ == data@.subrange(start as int, end as int),
{
    let mut out: Vec<u8> = Vec::with_capacity(end - start);
    let mut i = start;
    while i < end
        invariant
            start <= i <= end <= data@.len(),
            out@ == data@.subrange(start as int, i as int),
        decreases end - i,
    {
        out.push(data[i]);
        i = i + 1;
    }
    out
}

} // verus!
