//! RaptorQ FEC decode session.
//!
//! A transport payload is 4 bytes of RaptorQ Payload ID (source block
//! number + 24-bit ESI, big-endian) followed by one `T`-byte symbol, where
//! `T = transport payload size - 4`. The source-block geometry is derived
//! from the transfer length and `T` (RFC 6330 4.4.1.2).
use flate2::read::DeflateDecoder;
use raptorq::Decoder;
use raptorq::EncodingPacket;
use raptorq::ObjectTransmissionInformation;
use std::collections::HashSet;
use std::io::Read;
use vstd::prelude::*;
use vstd::std_specs::iter::IteratorSpec;
use crate::protocol::copy_range;
use crate::text::lossy_string;
use crate::text::utf8_lossy;
use vstd::utf8::decode_utf8;
use vstd::utf8::encode_utf8;
use vstd::utf8::valid_utf8;
use vstd::set_lib::lemma_int_range;
use vstd::set_lib::lemma_len_subset;
use vstd::set_lib::set_int_range;

verus! {

broadcast use vstd::std_specs::hash::group_hash_axioms;

pub const PAYLOAD_ID_BYTES: usize = 4;

pub const MAX_SOURCE_SYMBOLS_PER_BLOCK: u64 = 56_403;

/// Largest transfer length that RaptorQ accepts (RFC 6330 errata 5548).
pub const MAX_TRANSFER_LENGTH: u64 = 942574504275;

// ─── Geometry ───────────────────────────────────────────────────────────────

pub open spec fn ceil_div_spec(value: int, divisor: int) -> int {
    if value == 0 {
        0
    } else {
        (value - 1) / divisor + 1
    }
}

pub open spec fn max1(v: int) -> int {
    if v < 1 {
        1
    } else {
        v
    }
}

/// Total source symbols of a transfer (at least one).
pub open spec fn spec_total_symbols(data_len: int, symbol_size: int) -> int {
    max1(ceil_div_spec(data_len, symbol_size))
}

/// Number of source blocks `Z = ceil(Kt / 56403)` (at least one).
pub open spec fn spec_block_count(data_len: int, symbol_size: int) -> int {
    max1(ceil_div_spec(spec_total_symbols(data_len, symbol_size), MAX_SOURCE_SYMBOLS_PER_BLOCK as int))
}

/// Inputs for which the geometry is defined and fits a `u8` block count.
pub open spec fn geometry_ok(data_len: int, symbol_size: int) -> bool {
    &&& 0 <= data_len
    &&& (data_len == 0 || symbol_size > 0)
    &&& spec_block_count(data_len, symbol_size) <= 255
}

/// RFC 6330 partition: source symbols of block `i` out of `z` blocks
/// holding `kt` symbols (`KL = ceil(Kt/Z)`, `KS = KL - 1`, `ZL = Kt - KS*Z`).
pub open spec fn partition_k(kt: int, z: int, i: int) -> int {
    let kl = ceil_div_spec(kt, z);
    let ks = kl - 1;
    let zl = kt - ks * z;
    if i < zl {
        kl
    } else {
        ks
    }
}

/// The per-block source-symbol counts of a transfer.
pub open spec fn spec_block_ks(data_len: int, symbol_size: int) -> Seq<u32> {
    let kt = spec_total_symbols(data_len, symbol_size);
    let z = spec_block_count(data_len, symbol_size);
    Seq::new(z as nat, |i: int| partition_k(kt, z, i) as u32)
}

pub open spec fn sum_u32(s: Seq<u32>) -> int
    decreases s.len(),
{
    if s.len() == 0 {
        0
    } else {
        sum_u32(s.drop_last()) + s.last()
    }
}

fn ceil_div(value: u64, divisor: u64) -> (r: u64)
    requires
        value == 0 || divisor > 0,
    ensures
        r == ceil_div_spec(value as int, divisor as int),
{
    if value == 0 {
        0
    } else {
        (value - 1) / divisor + 1
    }
}

proof fn lemma_ceil_div_bounds(v: int, d: int)
    requires
        v >= 1,
        d >= 1,
    ensures
        ceil_div_spec(v, d) >= 1,
        ceil_div_spec(v, d) * d >= v,
        (ceil_div_spec(v, d) - 1) * d < v,
        ceil_div_spec(v, d) <= v,
{
    let q = (v - 1) / d;
    let r = (v - 1) % d;
    vstd::arithmetic::div_mod::lemma_fundamental_div_mod(v - 1, d);
    assert(0 <= r < d);
    assert(q >= 0) by {
        vstd::arithmetic::div_mod::lemma_div_pos_is_pos(v - 1, d);
    }
    assert((q + 1) * d >= v) by (nonlinear_arith)
        requires
            v - 1 == d * q + r,
            0 <= r < d,
    ;
    assert(q * d < v) by (nonlinear_arith)
        requires
            v - 1 == d * q + r,
            0 <= r,
    ;
    assert(q + 1 <= v) by (nonlinear_arith)
        requires
            v - 1 == d * q + r,
            0 <= r,
            d >= 1,
            q >= 0,
    ;
}

proof fn lemma_ceil_div_le(v: int, d: int, m: int)
    requires
        v >= 1,
        d >= 1,
        m >= 1,
        v <= m * d,
    ensures
        ceil_div_spec(v, d) <= m,
{
    lemma_ceil_div_bounds(v, d);
    let c = ceil_div_spec(v, d);
    assert(c <= m) by (nonlinear_arith)
        requires
            (c - 1) * d < v,
            v <= m * d,
            d >= 1,
    ;
}

/// Source-block geometry derived from transfer length and symbol size.
pub fn block_geometry(data_len: u64, symbol_size: u64) -> (z: u8)
    requires
        geometry_ok(data_len as int, symbol_size as int),
    ensures
        z == spec_block_count(data_len as int, symbol_size as int),
{
    let t = ceil_div(data_len, symbol_size);
    let total_symbols = if t < 1 {
        1
    } else {
        t
    };
    let b = ceil_div(total_symbols, MAX_SOURCE_SYMBOLS_PER_BLOCK);
    let source_blocks = if b < 1 {
        1
    } else {
        b
    };
    source_blocks as u8
}

/// Partition law: the blocks of a valid geometry hold at most 56403 source
/// symbols each, and together exactly the transfer's source symbols.
pub proof fn lemma_partition(data_len: int, symbol_size: int)
    requires
        geometry_ok(data_len, symbol_size),
    ensures
        spec_block_ks(data_len, symbol_size).len() == spec_block_count(data_len, symbol_size),
        1 <= spec_block_count(data_len, symbol_size) <= 255,
        sum_u32(spec_block_ks(data_len, symbol_size)) == spec_total_symbols(data_len, symbol_size),
        forall|i: int|
            0 <= i < spec_block_ks(data_len, symbol_size).len() ==> #[trigger] spec_block_ks(
                data_len,
                symbol_size,
            )[i] <= MAX_SOURCE_SYMBOLS_PER_BLOCK,
{
    let kt = spec_total_symbols(data_len, symbol_size);
    let z = spec_block_count(data_len, symbol_size);
    let m = MAX_SOURCE_SYMBOLS_PER_BLOCK as int;
    assert(kt >= 1);
    lemma_ceil_div_bounds(kt, m);
    assert(z == ceil_div_spec(kt, m));
    assert(z <= kt);
    assert(kt <= z * m) by (nonlinear_arith)
        requires
            ceil_div_spec(kt, m) * m >= kt,
            z == ceil_div_spec(kt, m),
    ;
    lemma_ceil_div_bounds(kt, z);
    lemma_ceil_div_le(kt, z, m);
    let kl = ceil_div_spec(kt, z);
    let ks = kl - 1;
    let zl = kt - ks * z;
    assert(0 < zl <= z) by (nonlinear_arith)
        requires
            kl * z >= kt,
            (kl - 1) * z < kt,
            ks == kl - 1,
            zl == kt - ks * z,
    ;
    let ks_seq = spec_block_ks(data_len, symbol_size);
    assert forall|i: int| 0 <= i < ks_seq.len() implies #[trigger] ks_seq[i]
        <= MAX_SOURCE_SYMBOLS_PER_BLOCK by {
        assert(partition_k(kt, z, i) <= kl);
    }
    lemma_partition_sum(kt, z, z);
    assert(ks_seq =~= Seq::new(z as nat, |i: int| partition_k(kt, z, i) as u32));
    assert(z * ks + zl == kt);
}

/// Sum of the first `n` partition counts.
proof fn lemma_partition_sum(kt: int, z: int, n: int)
    requires
        1 <= z <= kt,
        kt <= z * (MAX_SOURCE_SYMBOLS_PER_BLOCK as int),
        0 <= n <= z,
    ensures
        ({
            let kl = ceil_div_spec(kt, z);
            let ks = kl - 1;
            let zl = kt - ks * z;
            sum_u32(Seq::new(n as nat, |i: int| partition_k(kt, z, i) as u32)) == n * ks + (
            if n < zl {
                n
            } else {
                zl
            })
        }),
    decreases n,
{
    let kl = ceil_div_spec(kt, z);
    lemma_ceil_div_bounds(kt, z);
    lemma_ceil_div_le(kt, z, MAX_SOURCE_SYMBOLS_PER_BLOCK as int);
    let s = Seq::new(n as nat, |i: int| partition_k(kt, z, i) as u32);
    if n > 0 {
        lemma_partition_sum(kt, z, n - 1);
        assert(s.drop_last() =~= Seq::new((n - 1) as nat, |i: int| partition_k(kt, z, i) as u32));
        assert(s.last() == partition_k(kt, z, n - 1) as u32);
        assert(0 <= partition_k(kt, z, n - 1) <= kl);
        assert(kl <= MAX_SOURCE_SYMBOLS_PER_BLOCK);
        assert(s.last() as int == partition_k(kt, z, n - 1));
        let ks = kl - 1;
        assert((n - 1) * ks + ks == n * ks) by (nonlinear_arith);
    } else {
        assert(s =~= Seq::<u32>::empty());
        assert(0 * (kl - 1) == 0);
    }
}

// ─── The RaptorQ decoder (outside crate) ────────────────────────────────────

#[verifier::external_type_specification]
#[verifier::external_body]
pub struct ExDecoder(Decoder);

/// Configuration a decoder was made with: (transfer length, symbol size,
/// number of source blocks).
pub uninterp spec fn decoder_config(d: Decoder) -> (u64, u16, u8);

/// Payloads (payload id followed by one symbol) fed to a decoder so far, in order.
pub uninterp spec fn decoder_fed(d: Decoder) -> Seq<Seq<u8>>;

/// What `Decoder::decode` returns once a decoder made with `config` has been
/// fed the payloads `fed`: the object when every source block is solved.
pub uninterp spec fn fec_decoded(config: (u64, u16, u8), fed: Seq<Seq<u8>>) -> Option<Seq<u8>>;

/// Configurations that `ObjectTransmissionInformation::new` and
/// `Decoder::new` accept without panicking.
pub open spec fn decoder_config_ok(f: int, t: int, z: int) -> bool {
    &&& 0 <= f <= MAX_TRANSFER_LENGTH
    &&& 0 < t <= u16::MAX
    &&& 0 < z <= u8::MAX
    &&& ceil_div_spec(ceil_div_spec(f, t), z) <= MAX_SOURCE_SYMBOLS_PER_BLOCK
}

/// `raptorq::Decoder::new` on `ObjectTransmissionInformation::new(f, t, z, 1, 1)`:
/// a decoder for that configuration that has been fed nothing.
#[verifier::external_body]
fn new_decoder(transfer_length: u64, symbol_size: u16, source_blocks: u8) -> (d: Decoder)
    requires
        decoder_config_ok(transfer_length as int, symbol_size as int, source_blocks as int),
    ensures
        decoder_config(d) == (transfer_length, symbol_size, source_blocks),
        decoder_fed(d) == Seq::<Seq<u8>>::empty(),
{
    Decoder::new(ObjectTransmissionInformation::new(transfer_length, symbol_size, source_blocks, 1, 1))
}

/// The distinct ESIs among the fed payloads of source block `b`.
pub open spec fn fed_esis(fed: Seq<Seq<u8>>, b: u8) -> Set<u32> {
    Set::new(|e: u32| exists|i: int| 0 <= i < fed.len() && #[trigger] payload_id(fed[i]) == (b, e))
}

/// Source symbols of block `b` as the decoder made with `config` counts
/// them: the RFC 6330 partition of `ceil(F / T)` symbols into `Z` blocks.
pub open spec fn decoder_block_k(config: (u64, u16, u8), b: int) -> int {
    partition_k(ceil_div_spec(config.0 as int, config.1 as int), config.2 as int, b)
}

/// Every source block has been fed at least as many distinct ESIs as it
/// has source symbols, which a block needs before it can be solved.
pub open spec fn blocks_have_enough(config: (u64, u16, u8), fed: Seq<Seq<u8>>) -> bool {
    forall|b: int| 0 <= b < config.2 ==> (#[trigger] fed_esis(fed, b as u8)).len() >= decoder_block_k(config, b)
}

/// What `raptorq::extended_source_block_symbols` returns for `k` source
/// symbols: K', the smallest block size of RFC 6330's table 2 that is at
/// least `k`.
pub uninterp spec fn extended_k(k: u32) -> u32;

/// `raptorq::extended_source_block_symbols`: K' for a block of `k` source
/// symbols, a table entry no smaller than `k` and at most 56403. It asserts
/// `k <= 56403`.
#[verifier::external_body]
fn extended_block_symbols(k: u32) -> (r: u32)
    requires
        k <= 56403,
    ensures
        r == extended_k(k),
        k <= r <= 56403,
{
    raptorq::extended_source_block_symbols(k)
}

/// RFC 6330's `A` of `Tuple[K', X]` for systematic index `j`, made odd.
pub open spec fn tuple_a(j: int) -> int {
    let a = 53591 + j * 997;
    if a % 2 == 0 {
        a + 1
    } else {
        a
    }
}

/// RFC 6330's `y` of `Tuple[K', X]` for systematic index `j` and internal
/// symbol id `isi`.
pub open spec fn tuple_y(j: int, isi: int) -> int {
    (10267 * (j + 1) + isi * tuple_a(j)) % 4294967296
}

/// An internal symbol id whose tuple the decoder computes without a `u32`
/// overflow, whatever the block's systematic index (every index of the
/// table is at most 1000): `rand(y, i, m)` adds `i <= 2` to `y`.
pub open spec fn isi_safe(isi: int) -> bool {
    forall|j: int| 0 <= j <= 1000 ==> #[trigger] tuple_y(j, isi) < 4294967294
}

/// A payload that is a source symbol of its block, or a repair symbol whose
/// internal symbol id (ESI plus the block's padding `K' - K`) is safe.
pub open spec fn repair_safe(config: (u64, u16, u8), p: Seq<u8>) -> bool {
    let id = payload_id(p);
    let k = decoder_block_k(config, id.0 as int);
    id.1 >= k ==> isi_safe(id.1 + extended_k(k as u32) - k)
}

/// Decides [`isi_safe`].
fn check_isi(isi: u64) -> (r: bool)
    requires
        isi < 0x200_0000,
    ensures
        r == isi_safe(isi as int),
{
    let mut j: u64 = 0;
    while j <= 1000
        invariant
            isi < 0x200_0000,
            j <= 1001,
            forall|i: int| 0 <= i < j ==> #[trigger] tuple_y(i, isi as int) < 4294967294,
        decreases 1001 - j,
    {
        let base = 53591 + j * 997;
        let a = if base % 2 == 0 {
            base + 1
        } else {
            base
        };
        assert(isi * a < 0x200_0000 * 1100000) by (nonlinear_arith)
            requires
                isi < 0x200_0000,
                a <= 1100000,
        ;
        let y = (10267 * (j + 1) + isi * a) % 4294967296;
        assert(a == tuple_a(j as int));
        if y >= 4294967294 {
            assert(!isi_safe(isi as int)) by {
                assert(tuple_y(j as int, isi as int) >= 4294967294);
            }
            return false;
        }
        j = j + 1;
    }
    true
}

/// `raptorq::Decoder::decode` on `EncodingPacket::deserialize(payload)`:
/// records the payload, and returns the decoded object (exactly the transfer
/// length long) once every source block is solved. A block is never solved
/// before it has received as many distinct ESIs as it has source symbols
/// (the block decoder's first case). The decoded bytes themselves are only
/// named, not stated.
///
/// Solving a block with repair symbols computes RFC 6330's `Tuple[K', X]`
/// for every internal symbol id X of the block, and `rand(y, i, m)` adds
/// `i` (at most 2) to `y` in `u32`, which overflows (a panic where overflow
/// checks are on) when `y >= 2^32 - 2`. For the ids below K' (source and
/// padding symbols) this never happens: with the (K', J) rows of the
/// systematic-index table, `y < 2^32 - 2` for every X < K'. For repair
/// symbols the `requires` asks that every one fed is [`repair_safe`]. Other
/// payloads are not handed to the decoder.
#[verifier::external_body]
fn decoder_decode(decoder: &mut Decoder, payload: &[u8]) -> (r: Option<Vec<u8>>)
    requires
        payload@.len() == decoder_config(*old(decoder)).1 as int + 4,
        payload@[0] < decoder_config(*old(decoder)).2,
        repair_safe(decoder_config(*old(decoder)), payload@),
        forall|i: int|
            0 <= i < decoder_fed(*old(decoder)).len() ==> repair_safe(
                decoder_config(*old(decoder)),
                #[trigger] decoder_fed(*old(decoder))[i],
            ),
    ensures
        decoder_config(*final(decoder)) == decoder_config(*old(decoder)),
        decoder_fed(*final(decoder)) == decoder_fed(*old(decoder)).push(payload@),
        match r {
            Some(v) => fec_decoded(decoder_config(*final(decoder)), decoder_fed(*final(decoder)))
                == Some(v@) && v@.len() == decoder_config(*final(decoder)).0 && blocks_have_enough(
                decoder_config(*final(decoder)),
                decoder_fed(*final(decoder)),
            ),
            None => fec_decoded(decoder_config(*final(decoder)), decoder_fed(*final(decoder)))
                is None,
        },
{
    decoder.decode(EncodingPacket::deserialize(payload))
}

// ─── Received-symbol bookkeeping ────────────────────────────────────────────

/// (source block number, 24-bit ESI) of a RaptorQ transport payload.
pub open spec fn payload_id(p: Seq<u8>) -> (u8, u32) {
    (p[0], (p[1] as int * 65536 + p[2] as int * 256 + p[3] as int) as u32)
}

/// The (source block, ESI) that a transport payload names in its first four
/// bytes (block number, then a 24-bit big-endian ESI); (0, 0) for a payload
/// shorter than that.
pub fn symbol_id(payload: &[u8]) -> (r: (u8, u32))
    ensures
        payload@.len() >= 4 ==> r == payload_id(payload@) && r.1 < 16777216,
        payload@.len() < 4 ==> r == (0u8, 0u32),
{
    if payload.len() < 4 {
        return (0, 0);
    }
    let b1 = payload[1];
    let b2 = payload[2];
    let b3 = payload[3];
    let esi = ((b1 as u32) << 16) | ((b2 as u32) << 8) | b3 as u32;
    assert(esi == (b1 as int * 65536 + b2 as int * 256 + b3 as int) as u32 && esi < 16777216)
        by (bit_vector)
        requires
            esi == ((b1 as u32) << 16) | ((b2 as u32) << 8) | b3 as u32,
    ;
    (payload[0], esi)
}

/// Sort key of a (block, ESI) pair.
pub open spec fn esi_key(p: (u8, u32)) -> int {
    p.0 as int * 16777216 + p.1 as int
}

pub open spec fn key_pair(k: u64) -> (u8, u32) {
    ((k / 16777216) as u8, (k % 16777216) as u32)
}

/// Lexicographic order of (block, ESI) pairs.
pub open spec fn pair_lt(a: (u8, u32), b: (u8, u32)) -> bool {
    a.0 < b.0 || (a.0 == b.0 && a.1 < b.1)
}

pub open spec fn strictly_sorted(s: Seq<u64>) -> bool {
    forall|i: int, j: int| 0 <= i < j < s.len() ==> s[i] < s[j]
}

/// `<[u64]>::sort_unstable`: the same keys, in ascending order.
#[verifier::external_body]
fn sort_keys(v: &mut Vec<u64>)
    ensures
        final(v)@.to_multiset() == old(v)@.to_multiset(),
        forall|i: int, j: int| 0 <= i <= j < final(v)@.len() ==> final(v)@[i] <= final(v)@[j],
{
    v.sort_unstable();
}

/// The keys of a set, each once, in ascending order.
fn sorted_keys(s: &HashSet<u64>) -> (v: Vec<u64>)
    ensures
        strictly_sorted(v@),
        forall|x: u64| v@.contains(x) <==> s@.contains(x),
{
    let ghost full = vstd::std_specs::hash::spec_hash_keys_iter(s).remaining().unref();
    let mut v: Vec<u64> = Vec::new();
    for k in it: s.iter()
        invariant
            it.seq().unref() == full,
            v@ == full.take(it.index() as int),
    {
        v.push(*k);
        assert(v@ =~= full.take(it.index() + 1));
    }
    assert(v@ =~= full);
    assert(v@.no_duplicates());
    assert(v@.to_set() == s@);
    let ghost before = v@;
    sort_keys(&mut v);
    proof {
        broadcast use vstd::seq_lib::group_to_multiset_ensures;
        before.lemma_multiset_has_no_duplicates();
        assert forall|x: u64| v@.to_multiset().contains(x) implies v@.to_multiset().count(x)
            == 1 by {
            assert(before.to_multiset().contains(x));
        }
        v@.lemma_multiset_has_no_duplicates_conv();
        assert forall|x: u64| v@.contains(x) <==> s@.contains(x) by {
            assert(v@.contains(x) <==> v@.to_multiset().count(x) > 0);
            assert(before.contains(x) <==> before.to_multiset().count(x) > 0);
            assert(before.contains(x) <==> before.to_set().contains(x));
        }
        assert forall|i: int, j: int| 0 <= i < j < v@.len() implies v@[i] < v@[j] by {
            assert(v@[i] <= v@[j]);
            assert(v@[i] != v@[j]);
        }
    }
    v
}

proof fn lemma_key_pair_roundtrip(p: (u8, u32))
    requires
        p.1 < 16777216,
    ensures
        esi_key(p) < 4294967296,
        key_pair(esi_key(p) as u64) == p,
{
    let k = esi_key(p);
    assert(k / 16777216 == p.0 as int && k % 16777216 == p.1 as int) by {
        vstd::arithmetic::div_mod::lemma_fundamental_div_mod_converse(
            k,
            16777216,
            p.0 as int,
            p.1 as int,
        );
    }
}

proof fn lemma_esi_key_injective(p: (u8, u32), q: (u8, u32))
    requires
        p.1 < 16777216,
        q.1 < 16777216,
        esi_key(p) == esi_key(q),
    ensures
        p == q,
{
    lemma_key_pair_roundtrip(p);
    lemma_key_pair_roundtrip(q);
}

proof fn lemma_key_order(a: u64, b: u64)
    requires
        a < b < 4294967296u64,
    ensures
        pair_lt(key_pair(a), key_pair(b)),
{
    vstd::arithmetic::div_mod::lemma_fundamental_div_mod(a as int, 16777216);
    vstd::arithmetic::div_mod::lemma_fundamental_div_mod(b as int, 16777216);
    let qa = a as int / 16777216;
    let qb = b as int / 16777216;
    let ra = a as int % 16777216;
    let rb = b as int % 16777216;
    assert(qa <= qb) by (nonlinear_arith)
        requires
            a == 16777216 * qa + ra,
            b == 16777216 * qb + rb,
            0 <= ra < 16777216,
            0 <= rb < 16777216,
            a < b,
    ;
    assert(qa == qb ==> ra < rb);
    assert(qb < 256) by (nonlinear_arith)
        requires
            b == 16777216 * qb + rb,
            0 <= rb,
            b < 4294967296,
    ;
    assert(qa >= 0) by (nonlinear_arith)
        requires
            a == 16777216 * qa + ra,
            ra < 16777216,
            a >= 0,
    ;
}

/// The geometry fits the decoder's own limits.
proof fn lemma_decoder_config_ok(data_len: int, symbol_size: int)
    requires
        geometry_ok(data_len, symbol_size),
        0 <= data_len <= MAX_TRANSFER_LENGTH,
        0 < symbol_size <= u16::MAX,
    ensures
        decoder_config_ok(data_len, symbol_size, spec_block_count(data_len, symbol_size)),
{
    lemma_partition(data_len, symbol_size);
    let kt0 = ceil_div_spec(data_len, symbol_size);
    let kt = spec_total_symbols(data_len, symbol_size);
    let z = spec_block_count(data_len, symbol_size);
    let m = MAX_SOURCE_SYMBOLS_PER_BLOCK as int;
    if kt0 >= 1 {
        lemma_ceil_div_bounds(kt, m);
        assert(kt <= z * m) by (nonlinear_arith)
            requires
                ceil_div_spec(kt, m) * m >= kt,
                z == ceil_div_spec(kt, m),
        ;
        lemma_ceil_div_le(kt, z, m);
    }
}

/// The keys `keys` stand for exactly the pairs of `pairs`.
pub open spec fn keys_match(keys: Set<u64>, pairs: Set<(u8, u32)>) -> bool {
    &&& forall|p: (u8, u32)|
        p.1 < 16777216 ==> (pairs.contains(p) <==> keys.contains(esi_key(p) as u64))
    &&& forall|k: u64|
        #[trigger] keys.contains(k) ==> k < 4294967296u64 && pairs.contains(key_pair(k))
}

proof fn lemma_keys_match_insert(pairs: Set<(u8, u32)>, keys: Set<u64>, id: (u8, u32))
    requires
        keys_match(keys, pairs),
        id.1 < 16777216,
    ensures
        keys_match(keys.insert(esi_key(id) as u64), pairs.insert(id)),
{
    lemma_key_pair_roundtrip(id);
    let w = keys.insert(esi_key(id) as u64);
    assert forall|p: (u8, u32)| p.1 < 16777216 implies (pairs.insert(id).contains(p) <==> w.contains(
        esi_key(p) as u64,
    )) by {
        lemma_key_pair_roundtrip(p);
        if esi_key(p) == esi_key(id) {
            lemma_esi_key_injective(p, id);
        }
    }
}

/// A block's received source-symbol count is below its size while one of
/// its source ESIs is still missing.
proof fn lemma_block_seen_room(m: SessionModel, b: int, e: int)
    requires
        m.inv(),
        0 <= b < m.block_k.len(),
        0 <= e < m.block_k[b],
        !m.seen.contains((b as u8, e as u32)),
    ensures
        m.block_seen[b] < m.block_k[b],
{
    let kb = m.block_k[b] as int;
    lemma_int_range(0, kb);
    assert(m.source_esis(b).insert(e).subset_of(set_int_range(0, kb)));
    lemma_len_subset(m.source_esis(b).insert(e), set_int_range(0, kb));
    assert(!m.source_esis(b).contains(e));
    lemma_len_subset(m.source_esis(b), set_int_range(0, kb));
}

/// Every block's received count is at most its size.
pub proof fn lemma_block_seen_bound(m: SessionModel, b: int)
    requires
        m.inv(),
        0 <= b < m.block_k.len(),
    ensures
        m.block_seen[b] <= m.block_k[b],
{
    lemma_int_range(0, m.block_k[b] as int);
    lemma_len_subset(m.source_esis(b), set_int_range(0, m.block_k[b] as int));
}

/// Accepting a payload keeps the session invariant.
proof fn lemma_after_push_inv(m: SessionModel, p: Seq<u8>)
    requires
        m.inv(),
        m.accepts(p),
        payload_id(p).1 < 16777216,
    ensures
        m.after_push(p).inv(),
{
    let id = payload_id(p);
    let n = m.after_push(p);
    let blk = id.0 as int;
    let esi = id.1 as int;
    if esi < m.block_k[blk] {
        lemma_block_seen_room(m, blk, esi);
    }
    assert forall|b: u8, e: u32| n.seen.contains((b, e)) == fed_esis(n.fed, b).contains(e) by {
        if fed_esis(n.fed, b).contains(e) {
            let i = choose|i: int| 0 <= i < n.fed.len() && #[trigger] payload_id(n.fed[i]) == (b, e);
            if i < m.fed.len() {
                assert(n.fed[i] == m.fed[i]);
                assert(fed_esis(m.fed, b).contains(e));
            }
        }
        if n.seen.contains((b, e)) {
            if (b, e) == id {
                assert(payload_id(n.fed[m.fed.len() as int]) == (b, e));
            } else {
                assert(fed_esis(m.fed, b).contains(e));
                let i = choose|i: int| 0 <= i < m.fed.len() && #[trigger] payload_id(m.fed[i]) == (b, e);
                assert(n.fed[i] == m.fed[i]);
            }
        }
    }
    assert forall|b: int| 0 <= b < n.block_seen.len() implies #[trigger] n.block_seen[b]
        == n.source_esis(b).len() by {
        if b == blk && esi < m.block_k[b] {
            assert(n.source_esis(b) =~= m.source_esis(b).insert(esi));
            lemma_int_range(0, m.block_k[b] as int);
            lemma_len_subset(m.source_esis(b), set_int_range(0, m.block_k[b] as int));
            assert(!m.source_esis(b).contains(esi));
        } else {
            assert(n.source_esis(b) =~= m.source_esis(b));
        }
    }
}

/// The ESIs received so far for source block `b`.
pub open spec fn received_for(m: SessionModel, b: u8) -> Set<u32> {
    Set::new(|e: u32| m.seen.contains((b, e)))
}

/// An incomplete transfer never completes: once `push` has returned the
/// decoded object, every source block had received at least as many
/// distinct ESIs as it has source symbols (for a non-empty transfer, its
/// `block_k`). While some block has fewer, no push completes the session.
pub proof fn lemma_completion_needs_every_block(m: SessionModel)
    requires
        m.inv(),
        blocks_have_enough(m.config(), m.fed),
    ensures
        forall|b: int|
            0 <= b < m.source_blocks ==> #[trigger] received_for(m, b as u8).len()
                >= decoder_block_k(m.config(), b),
        m.data_length > 0 ==> forall|b: int|
            0 <= b < m.source_blocks ==> #[trigger] decoder_block_k(m.config(), b)
                == m.block_k[b],
{
    assert forall|b: int| 0 <= b < m.source_blocks implies #[trigger] received_for(
        m,
        b as u8,
    ).len() >= decoder_block_k(m.config(), b) by {
        assert(received_for(m, b as u8) =~= fed_esis(m.fed, b as u8));
        assert(fed_esis(m.fed, b as u8).len() >= decoder_block_k(m.config(), b));
    }
    if m.data_length > 0 {
        assert(ceil_div_spec(m.data_length as int, m.symbol_size as int) >= 1) by {
            assert(m.symbol_size > 0);
            vstd::arithmetic::div_mod::lemma_div_pos_is_pos(
                m.data_length - 1,
                m.symbol_size as int,
            );
        }
    }
}

/// The decoder's source-symbol count of a block, as the session can compute
/// it: 0 for an empty transfer, otherwise the block's `block_k`.
proof fn lemma_decoder_k(m: SessionModel, b: int)
    requires
        m.inv(),
        0 <= b < m.source_blocks,
    ensures
        decoder_block_k(m.config(), b) == if m.data_length == 0 {
            0
        } else {
            m.block_k[b] as int
        },
        m.block_k[b] <= MAX_SOURCE_SYMBOLS_PER_BLOCK,
{
    lemma_partition(m.data_length as int, m.symbol_size as int);
    if m.data_length > 0 {
        assert(ceil_div_spec(m.data_length as int, m.symbol_size as int) >= 1) by {
            vstd::arithmetic::div_mod::lemma_div_pos_is_pos(
                m.data_length - 1,
                m.symbol_size as int,
            );
        }
    } else {
        assert(spec_total_symbols(0, m.symbol_size as int) == 1);
        assert(spec_block_count(0, m.symbol_size as int) == 1);
    }
}

// ─── The session ────────────────────────────────────────────────────────────

/// Abstract state of a RaptorQ decode session.
pub struct SessionModel {
    pub data_length: u64,
    pub symbol_size: u16,
    pub source_blocks: u8,
    /// Source symbols per block (RFC 6330 partition).
    pub block_k: Seq<u32>,
    /// Distinct source symbols received per block.
    pub block_seen: Seq<u32>,
    /// Every (block, ESI) accepted so far.
    pub seen: Set<(u8, u32)>,
    /// Payloads handed to the decoder, in order.
    pub fed: Seq<Seq<u8>>,
    /// Total source symbols of the transfer (progress denominator).
    pub total_source_symbols: u64,
    /// Set once the decoder returned the object.
    pub done: bool,
}

impl SessionModel {
    /// ESIs below `block_k[b]` received for block `b`.
    pub open spec fn source_esis(self, b: int) -> Set<int> {
        Set::new(|e: int| 0 <= e < self.block_k[b] && self.seen.contains((b as u8, e as u32)))
    }

    pub open spec fn inv(self) -> bool {
        &&& geometry_ok(self.data_length as int, self.symbol_size as int)
        &&& decoder_config_ok(
            self.data_length as int,
            self.symbol_size as int,
            self.source_blocks as int,
        )
        &&& self.source_blocks == spec_block_count(self.data_length as int, self.symbol_size as int)
        &&& self.block_k == spec_block_ks(self.data_length as int, self.symbol_size as int)
        &&& self.block_seen.len() == self.block_k.len()
        &&& forall|b: int|
            0 <= b < self.block_seen.len() ==> #[trigger] self.block_seen[b] == self.source_esis(
                b,
            ).len()
        &&& forall|p: (u8, u32)|
            #[trigger] self.seen.contains(p) ==> p.0 < self.source_blocks && p.1 < 16777216
        &&& forall|b: u8, e: u32|
            #![trigger self.seen.contains((b, e))]
            #![trigger fed_esis(self.fed, b).contains(e)]
            self.seen.contains((b, e)) == fed_esis(self.fed, b).contains(e)
        &&& forall|i: int|
            0 <= i < self.fed.len() ==> repair_safe(self.config(), #[trigger] self.fed[i])
    }

    /// The decoder configuration of this session.
    pub open spec fn config(self) -> (u64, u16, u8) {
        (self.data_length, self.symbol_size, self.source_blocks)
    }

    /// A payload that the session hands to the decoder: the right size, a
    /// valid source block, and an id not seen before.
    pub open spec fn accepts(self, p: Seq<u8>) -> bool {
        &&& p.len() == self.symbol_size as int + PAYLOAD_ID_BYTES
        &&& p[0] < self.source_blocks
        &&& !self.seen.contains(payload_id(p))
        &&& repair_safe(self.config(), p)
    }

    /// The session state after accepting payload `p`.
    pub open spec fn after_push(self, p: Seq<u8>) -> SessionModel {
        let id = payload_id(p);
        SessionModel {
            seen: self.seen.insert(id),
            block_seen: if id.1 < self.block_k[id.0 as int] {
                self.block_seen.update(id.0 as int, (self.block_seen[id.0 as int] + 1) as u32)
            } else {
                self.block_seen
            },
            fed: self.fed.push(p),
            ..self
        }
    }

    /// Per-block progress as shown to the user: (block, received (clipped
    /// to the block size), block size).
    pub open spec fn block_progress(self) -> Seq<(u8, u32, u32)> {
        Seq::new(
            self.block_k.len(),
            |i: int|
                (
                    i as u8,
                    if self.block_seen[i] < self.block_k[i] {
                        self.block_seen[i]
                    } else {
                        self.block_k[i]
                    },
                    self.block_k[i],
                ),
        )
    }
}

/// The symbol size of a session for transport payloads of this size: the
/// size less the 4-byte payload id, kept to its low 16 bits, as the
/// session's `u16` symbol size holds it. Payloads longer than 65539 bytes
/// thus give a session whose symbols none of them fits.
pub open spec fn session_symbol_size(transport_payload_size: int) -> int {
    (transport_payload_size - PAYLOAD_ID_BYTES) % 65536
}

/// The state of a freshly created session.
pub open spec fn fresh_session(data_length: u64, transport_payload_size: int) -> SessionModel {
    let t = session_symbol_size(transport_payload_size);
    SessionModel {
        data_length,
        symbol_size: t as u16,
        source_blocks: spec_block_count(data_length as int, t) as u8,
        block_k: spec_block_ks(data_length as int, t),
        block_seen: Seq::new(spec_block_ks(data_length as int, t).len(), |i: int| 0u32),
        seen: Set::empty(),
        fed: Seq::empty(),
        total_source_symbols: spec_total_symbols(data_length as int, t) as u64,
        done: false,
    }
}

/// Transfers a session can be made for without the decoder's set-up
/// failing: a non-zero symbol size, a length RaptorQ accepts, and at most
/// 255 source blocks.
pub open spec fn session_supported(data_length: u64, transport_payload_size: int) -> bool {
    &&& transport_payload_size > PAYLOAD_ID_BYTES
    &&& session_symbol_size(transport_payload_size) > 0
    &&& data_length <= MAX_TRANSFER_LENGTH
    &&& geometry_ok(data_length as int, session_symbol_size(transport_payload_size))
}

/// Decides [`session_supported`].
pub fn is_session_supported(data_length: u64, transport_payload_size: usize) -> (r: bool)
    ensures
        r == session_supported(data_length, transport_payload_size as int),
{
    if transport_payload_size <= PAYLOAD_ID_BYTES || data_length > MAX_TRANSFER_LENGTH {
        return false;
    }
    let t = ((transport_payload_size - PAYLOAD_ID_BYTES) % 65536) as u64;
    if t == 0 {
        return false;
    }
    let kt = ceil_div(data_length, t);
    let kt = if kt < 1 {
        1
    } else {
        kt
    };
    let z = ceil_div(kt, MAX_SOURCE_SYMBOLS_PER_BLOCK);
    let z = if z < 1 {
        1
    } else {
        z
    };
    z <= 255
}

/// One in-progress transfer: keeps a RaptorQ decoder plus progress bookkeeping.
pub struct RaptorQSession {
    decoder: Decoder,
    data_length: u64,
    symbol_size: u16,
    source_blocks: u8,
    /// Total source symbols across all blocks (for progress display).
    pub total_source_symbols: u64,
    /// Keys (block * 2^24 + ESI) of the (block, ESI) pairs already fed.
    seen: HashSet<u64>,
    seen_pairs: Ghost<Set<(u8, u32)>>,
    /// Unique source symbols received per block, indexed by block number.
    per_block_seen: Vec<u32>,
    per_block_k: Vec<u32>,
    /// Completed once all source blocks decoded.
    pub done: bool,
}

impl View for RaptorQSession {
    type V = SessionModel;

    closed spec fn view(&self) -> SessionModel {
        SessionModel {
            data_length: decoder_config(self.decoder).0,
            symbol_size: self.symbol_size,
            source_blocks: self.source_blocks,
            block_k: self.per_block_k@,
            block_seen: self.per_block_seen@,
            seen: self.seen_pairs@,
            fed: decoder_fed(self.decoder),
            total_source_symbols: self.total_source_symbols,
            done: self.done,
        }
    }
}

impl RaptorQSession {
    /// Well-formedness: the abstract invariant, plus the concrete
    /// representation of the received set as a hash set of keys.
    pub closed spec fn wf(&self) -> bool {
        &&& self@.inv()
        &&& decoder_config(self.decoder) == self@.config()
        &&& self.data_length == self@.data_length
        &&& keys_match(self.seen@, self.seen_pairs@)
    }

    /// Invariant law: every session reachable through `new` and `push`
    /// keeps the abstract invariant — the geometry of its transfer, and for
    /// each block a received count equal to the number of distinct source
    /// ESIs received for it.
    pub proof fn lemma_wf_inv(&self)
        requires
            self.wf(),
        ensures
            self@.inv(),
    {
    }

    /// Create a session from the transfer metadata carried in the transport
    /// header: exact preprocessed data length and the transport payload size
    /// (4-byte payload id + symbol).
    pub fn new(data_length: u64, transport_payload_size: usize) -> (s: Self)
        requires
            session_supported(data_length, transport_payload_size as int),
        ensures
            s.wf(),
            s@ == fresh_session(data_length, transport_payload_size as int),
    {
        let symbol_size = ((transport_payload_size - PAYLOAD_ID_BYTES) % 65536) as u16;
        let source_blocks = block_geometry(data_length, symbol_size as u64);
        proof {
            lemma_partition(data_length as int, symbol_size as int);
            lemma_decoder_config_ok(data_length as int, symbol_size as int);
        }
        let decoder = new_decoder(data_length, symbol_size, source_blocks);
        let t = ceil_div(data_length, symbol_size as u64);
        let kt = if t < 1 {
            1
        } else {
            t
        };
        let ghost gkt = spec_total_symbols(data_length as int, symbol_size as int);
        let ghost gz = spec_block_count(data_length as int, symbol_size as int);
        assert(kt == gkt);
        // RFC 6330 4.4.1.2 partition: KL = ceil(Kt/Z), KS = KL-1,
        // ZL = Kt - KS*Z, ZS = Z - ZL.
        let z = source_blocks as u64;
        proof {
            lemma_ceil_div_bounds(kt as int, z as int);
            assert(kt <= z * MAX_SOURCE_SYMBOLS_PER_BLOCK) by (nonlinear_arith)
                requires
                    kt >= 1,
                    z == ceil_div_spec(kt as int, MAX_SOURCE_SYMBOLS_PER_BLOCK as int),
                    ceil_div_spec(kt as int, MAX_SOURCE_SYMBOLS_PER_BLOCK as int)
                        * MAX_SOURCE_SYMBOLS_PER_BLOCK >= kt,
            ;
            lemma_ceil_div_le(kt as int, z as int, MAX_SOURCE_SYMBOLS_PER_BLOCK as int);
        }
        let kl = ceil_div(kt, z);
        let ks = kl - 1;
        assert(ks * z < kt) by (nonlinear_arith)
            requires
                ks == kl - 1,
                (kl - 1) * z < kt,
        ;
        let zl = kt - ks * z;
        let mut per_block_k: Vec<u32> = Vec::with_capacity(source_blocks as usize);
        let mut i: u64 = 0;
        while i < z
            invariant
                i <= z,
                z == gz,
                kt == gkt,
                kl == ceil_div_spec(kt as int, z as int),
                ks == kl - 1,
                zl == kt - ks * z,
                kl <= MAX_SOURCE_SYMBOLS_PER_BLOCK,
                gkt == spec_total_symbols(data_length as int, symbol_size as int),
                gz == spec_block_count(data_length as int, symbol_size as int),
                per_block_k@ =~= spec_block_ks(data_length as int, symbol_size as int).take(i as int),
                spec_block_ks(data_length as int, symbol_size as int).len() == z,
            decreases z - i,
        {
            let k = if i < zl {
                kl
            } else {
                ks
            };
            proof {
                assert(spec_block_ks(data_length as int, symbol_size as int)[i as int]
                    == partition_k(gkt, gz, i as int) as u32);
            }
            let ghost prev = per_block_k@;
            per_block_k.push(k as u32);
            proof {
                assert(per_block_k@ =~= spec_block_ks(data_length as int, symbol_size as int).take(
                    i as int + 1,
                ));
            }
            i = i + 1;
        }
        let per_block_seen: Vec<u32> = vec![0u32; source_blocks as usize];
        let s = RaptorQSession {
            decoder,
            data_length,
            symbol_size,
            source_blocks,
            total_source_symbols: kt,
            seen: HashSet::new(),
            seen_pairs: Ghost(Set::empty()),
            per_block_seen,
            per_block_k,
            done: false,
        };
        proof {
            assert(per_block_k@ =~= spec_block_ks(data_length as int, symbol_size as int));
            assert forall|b: int| 0 <= b < s@.block_seen.len() implies #[trigger] s@.block_seen[b]
                == s@.source_esis(b).len() by {
                assert(s@.source_esis(b) =~= Set::<int>::empty());
            }
            assert(s@.block_seen =~= Seq::new(s@.block_k.len(), |i: int| 0u32));
            assert(s@ =~= fresh_session(data_length, transport_payload_size as int));
        }
        s
    }

    /// Feed one RaptorQ transport payload (4-byte payload id + symbol).
    /// Returns the fully decoded object once every block is solved.
    #[verifier::rlimit(30)]
    pub fn push(&mut self, transport_payload: &[u8]) -> (r: Option<Vec<u8>>)
        requires
            old(self).wf(),
        ensures
            final(self).wf(),
            if old(self)@.accepts(transport_payload@) {
                &&& final(self)@ == SessionModel {
                    done: old(self)@.done || r is Some,
                    ..old(self)@.after_push(transport_payload@)
                }
                &&& match r {
                    Some(v) => fec_decoded(final(self)@.config(), final(self)@.fed) == Some(v@)
                        && v@.len() == final(self)@.data_length && blocks_have_enough(
                        final(self)@.config(),
                        final(self)@.fed,
                    ),
                    None => fec_decoded(final(self)@.config(), final(self)@.fed) is None,
                }
            } else {
                &&& final(self)@ == old(self)@
                &&& r is None
            },
    {
        if transport_payload.len() != self.symbol_size as usize + PAYLOAD_ID_BYTES {
            return None;
        }
        let (block, esi) = symbol_id(transport_payload);
        let ghost id = payload_id(transport_payload@);
        assert(id == (block, esi) && esi < 16777216);
        if block >= self.source_blocks {
            return None;
        }
        proof {
            lemma_decoder_k(self@, block as int);
        }
        let k: u32 = if self.data_length == 0 {
            0
        } else {
            self.per_block_k[block as usize]
        };
        if esi >= k {
            let kp = extended_block_symbols(k);
            let isi = esi as u64 + (kp - k) as u64;
            if !check_isi(isi) {
                return None;
            }
        }
        assert(repair_safe(self@.config(), transport_payload@));
        let key = block as u64 * 16777216 + esi as u64;
        assert(key == esi_key(id));
        let ghost old_seen = self.seen@;
        let ghost old_model = self@;
        let inserted = self.seen.insert(key);
        if !inserted {
            assert(self.seen@ =~= old_seen);
            assert(self.seen_pairs@.contains(id));
            return None;
        }
        proof {
            lemma_keys_match_insert(self.seen_pairs@, old_seen, id);
            self.seen_pairs@ = self.seen_pairs@.insert(id);
        }
        if esi < self.per_block_k[block as usize] {
            proof {
                lemma_block_seen_room(old_model, block as int, esi as int);
            }
            let c = self.per_block_seen[block as usize];
            self.per_block_seen.set(block as usize, c + 1);
        }
        proof {
            lemma_after_push_inv(old_model, transport_payload@);
            assert(self@ =~= SessionModel {
                fed: old_model.fed,
                ..old_model.after_push(transport_payload@)
            });
        }
        let decoded = decoder_decode(&mut self.decoder, transport_payload);
        proof {
            assert(self@ =~= old_model.after_push(transport_payload@));
        }
        let ghost pushed = self@;
        assert(self.wf());
        match decoded {
            Some(v) => {
                self.done = true;
                assert(self@ =~= SessionModel { done: true, ..pushed });
                assert(self@.inv());
                Some(v)
            },
            None => None,
        }
    }

    /// Whether every source block has been decoded.
    pub fn is_done(&self) -> (r: bool)
        ensures
            r == self@.done,
    {
        self.done
    }

    /// Total source symbols across all blocks.
    pub fn source_symbol_count(&self) -> (r: u64)
        ensures
            r == self@.total_source_symbols,
    {
        self.total_source_symbols
    }

    /// Every (block, ESI) accepted so far, sorted.
    pub fn received_esis(&self) -> (r: Vec<(u8, u32)>)
        requires
            self.wf(),
        ensures
            forall|p: (u8, u32)| r@.contains(p) <==> self@.seen.contains(p),
            forall|i: int, j: int| 0 <= i < j < r@.len() ==> pair_lt(r@[i], r@[j]),
    {
        let keys = sorted_keys(&self.seen);
        let mut out: Vec<(u8, u32)> = Vec::with_capacity(keys.len());
        let mut i: usize = 0;
        while i < keys.len()
            invariant
                self.wf(),
                strictly_sorted(keys@),
                forall|x: u64| keys@.contains(x) <==> self.seen@.contains(x),
                i <= keys@.len(),
                out@.len() == i,
                forall|j: int| 0 <= j < i ==> #[trigger] out@[j] == key_pair(keys@[j]),
            decreases keys@.len() - i,
        {
            let k = keys[i];
            proof {
                assert(keys@.contains(k));
                assert(self.seen@.contains(k));
                assert(k < 4294967296u64);
            }
            let pair = ((k / 16777216) as u8, (k % 16777216) as u32);
            out.push(pair);
            i = i + 1;
        }
        proof {
            assert forall|a: int, b: int| 0 <= a < b < out@.len() implies pair_lt(
                out@[a],
                out@[b],
            ) by {
                assert(keys@.contains(keys@[b]));
                assert(self.seen@.contains(keys@[b]));
                lemma_key_order(keys@[a], keys@[b]);
            }
            assert forall|p: (u8, u32)| out@.contains(p) <==> self@.seen.contains(p) by {
                if out@.contains(p) {
                    let j = choose|j: int| 0 <= j < out@.len() && out@[j] == p;
                    assert(keys@.contains(keys@[j]));
                    assert(self.seen@.contains(keys@[j]));
                    assert(self.seen_pairs@.contains(key_pair(keys@[j])));
                }
                if self@.seen.contains(p) {
                    assert(p.1 < 16777216);
                    let k = esi_key(p) as u64;
                    assert(self.seen@.contains(k));
                    assert(keys@.contains(k));
                    let j = choose|j: int| 0 <= j < keys@.len() && keys@[j] == k;
                    lemma_key_pair_roundtrip(p);
                    assert(out@[j] == p);
                }
            }
        }
        out
    }

    /// Unique source symbols received per block, for progress bars:
    /// (block, received, source symbols of the block).
    pub fn per_block_progress(&self) -> (r: Vec<(u8, u32, u32)>)
        requires
            self.wf(),
        ensures
            r@ == self@.block_progress(),
    {
        let mut out: Vec<(u8, u32, u32)> = Vec::with_capacity(self.per_block_k.len());
        let mut i: usize = 0;
        while i < self.per_block_k.len()
            invariant
                self.wf(),
                i <= self@.block_k.len(),
                out@.len() == i,
                forall|j: int|
                    0 <= j < i ==> #[trigger] out@[j] == (
                        j as u8,
                        if self@.block_seen[j] < self@.block_k[j] {
                            self@.block_seen[j]
                        } else {
                            self@.block_k[j]
                        },
                        self@.block_k[j],
                    ),
            decreases self@.block_k.len() - i,
        {
            let k = self.per_block_k[i];
            let have = self.per_block_seen[i];
            let shown = if have < k {
                have
            } else {
                k
            };
            out.push((i as u8, shown, k));
            i = i + 1;
        }
        assert(out@ =~= self@.block_progress());
        out
    }

    /// Source symbols received so far and the total the transfer needs
    /// (at least one): the two terms of the progress fraction.
    pub fn progress_counts(&self) -> (r: (u64, u64))
        requires
            self.wf(),
        ensures
            r.0 == sum_u32(self@.block_seen),
            r.1 == max1(self@.total_source_symbols as int),
    {
        let mut have: u64 = 0;
        let mut i: usize = 0;
        proof {
            lemma_partition(self@.data_length as int, self@.symbol_size as int);
        }
        while i < self.per_block_seen.len()
            invariant
                self.wf(),
                i <= self@.block_seen.len(),
                have == sum_u32(self@.block_seen.take(i as int)),
                have <= i * MAX_SOURCE_SYMBOLS_PER_BLOCK,
                self@.block_seen.len() <= 255,
                forall|b: int|
                    0 <= b < self@.block_k.len() ==> #[trigger] self@.block_k[b]
                        <= MAX_SOURCE_SYMBOLS_PER_BLOCK,
            decreases self@.block_seen.len() - i,
        {
            proof {
                let m = self@;
                let b = i as int;
                lemma_int_range(0, m.block_k[b] as int);
                lemma_len_subset(m.source_esis(b), set_int_range(0, m.block_k[b] as int));
                assert(m.block_seen.take(b + 1).drop_last() =~= m.block_seen.take(b));
            }
            have = have + self.per_block_seen[i] as u64;
            i = i + 1;
        }
        proof {
            assert(self@.block_seen.take(self@.block_seen.len() as int) =~= self@.block_seen);
        }
        let total = if self.total_source_symbols < 1 {
            1
        } else {
            self.total_source_symbols
        };
        (have, total)
    }
}

// ─── Post-decode payload unwrapping ─────────────────────────────────────────

/// What raw-deflate decoding (`flate2::read::DeflateDecoder` read to the end)
/// yields for `data`: the inflated bytes, or those inflated before an error.
pub uninterp spec fn raw_inflate(data: Seq<u8>) -> Seq<u8>;

/// `flate2::read::DeflateDecoder::new(data).read_to_end(..)`, keeping what
/// was read when the stream is invalid.
#[verifier::external_body]
fn inflate_raw(data: &[u8]) -> (out: Vec<u8>)
    ensures
        out@ == raw_inflate(data@),
{
    let mut out = Vec::new();
    DeflateDecoder::new(data).read_to_end(&mut out).unwrap_or_default();
    out
}

pub open spec fn min_int(a: int, b: int) -> int {
    if a < b {
        a
    } else {
        b
    }
}

/// The file-mode preamble `[nameLen][name][mimeLen][mime][data]`, read
/// leniently: lengths are clipped to the bytes present. Yields the name
/// bytes and the data.
pub open spec fn split_preamble(b: Seq<u8>) -> (Seq<u8>, Seq<u8>) {
    if b.len() == 0 {
        (Seq::empty(), Seq::empty())
    } else {
        let r = b.drop_first();
        let n = min_int(b[0] as int, r.len() as int);
        let name = r.take(n);
        let rest = r.skip(n);
        if rest.len() == 0 {
            (name, rest)
        } else {
            let r2 = rest.drop_first();
            let m = min_int(rest[0] as int, r2.len() as int);
            (name, r2.skip(m))
        }
    }
}

/// The file-mode preamble a sender puts before the file's bytes.
pub open spec fn preamble(name: Seq<u8>, mime: Seq<u8>, body: Seq<u8>) -> Seq<u8> {
    seq![name.len() as u8] + name + seq![mime.len() as u8] + mime + body
}

/// Round trip: reading the preamble that a sender writes for a name and a
/// MIME type of at most 255 bytes each gives back that name and exactly the
/// file's bytes.
pub proof fn lemma_preamble_roundtrip(name: Seq<u8>, mime: Seq<u8>, body: Seq<u8>)
    requires
        name.len() <= 255,
        mime.len() <= 255,
    ensures
        split_preamble(preamble(name, mime, body)) == (name, body),
{
    let b = preamble(name, mime, body);
    let r = b.drop_first();
    assert(r =~= name + seq![mime.len() as u8] + mime + body);
    assert(r.take(name.len() as int) =~= name);
    let rest = r.skip(name.len() as int);
    assert(rest =~= seq![mime.len() as u8] + mime + body);
    let r2 = rest.drop_first();
    assert(r2 =~= mime + body);
    assert(r2.skip(mime.len() as int) =~= body);
}

/// Round trip of a file: for a file name whose UTF-8 bytes take at most 255
/// bytes and a MIME type of at most 255 bytes, the preamble a sender writes
/// reads back as that name's bytes, which are valid UTF-8 and decode to the
/// name, and exactly the file's bytes. With the contract of
/// `unwrap_payload` (uncompressed, file mode) this gives back the name and
/// the file.
pub proof fn lemma_file_payload_roundtrip(name: Seq<char>, mime: Seq<u8>, body: Seq<u8>)
    requires
        encode_utf8(name).len() <= 255,
        mime.len() <= 255,
    ensures
        split_preamble(preamble(encode_utf8(name), mime, body)) == (encode_utf8(name), body),
        valid_utf8(encode_utf8(name)),
        decode_utf8(encode_utf8(name)) == name,
        spec_unwrap_inflated(preamble(encode_utf8(name), mime, body), false).1 == body,
{
    lemma_preamble_roundtrip(encode_utf8(name), mime, body);
    vstd::utf8::encode_utf8_valid_utf8(name);
    vstd::utf8::encode_utf8_decode_utf8(name);
}

/// A text transfer keeps every byte: in text mode the body is the whole
/// inflated payload, of any length, and the text is read from all of it.
pub proof fn lemma_text_body_is_whole_payload(inflated: Seq<u8>)
    ensures
        spec_unwrap_inflated(inflated, true).1 == inflated,
        spec_unwrap_inflated(inflated, true).1.len() == inflated.len(),
        spec_unwrap_inflated(inflated, true).0 == utf8_lossy(inflated),
{
}

/// Every transfer length RaptorQ accepts is supported when its symbols fill
/// at most 255 source blocks of 56403 symbols: the only other conditions
/// are a payload longer than its 4-byte id and a non-zero 16-bit symbol
/// size. There is no bound of one block, nor any other bound on the length.
pub proof fn lemma_long_transfers_supported(data_length: u64, transport_payload_size: int)
    requires
        transport_payload_size > 4,
        (transport_payload_size - 4) % 65536 > 0,
        data_length <= MAX_TRANSFER_LENGTH,
        data_length <= ((transport_payload_size - 4) % 65536) * 56403 * 255,
    ensures
        session_supported(data_length, transport_payload_size),
{
    let t = (transport_payload_size - 4) % 65536;
    let d = data_length as int;
    let kt0 = ceil_div_spec(d, t);
    if d > 0 {
        assert(kt0 <= 56403 * 255) by (nonlinear_arith)
            requires
                d > 0,
                t > 0,
                d <= t * 56403 * 255,
                kt0 == (d - 1) / t + 1,
        ;
    }
    let kt = spec_total_symbols(d, t);
    assert(1 <= kt <= 56403 * 255);
    let z = ceil_div_spec(kt, 56403);
    assert(z <= 255) by (nonlinear_arith)
        requires
            1 <= kt <= 56403 * 255,
            z == (kt - 1) / 56403 + 1,
    ;
}

/// And only those: a supported session has a payload longer than its id,
/// a non-zero 16-bit symbol size `t`, a length RaptorQ accepts, and at most
/// 255 blocks of 56403 symbols of `t` bytes.
pub proof fn lemma_supported_sessions_fit(data_length: u64, transport_payload_size: int)
    requires
        session_supported(data_length, transport_payload_size),
    ensures
        transport_payload_size > 4,
        (transport_payload_size - 4) % 65536 > 0,
        data_length <= MAX_TRANSFER_LENGTH,
        data_length <= ((transport_payload_size - 4) % 65536) * 56403 * 255,
{
    let t = (transport_payload_size - 4) % 65536;
    let d = data_length as int;
    lemma_partition(d, t);
    let kt = spec_total_symbols(d, t);
    let z = spec_block_count(d, t);
    lemma_ceil_div_bounds(kt, 56403);
    assert(kt <= 56403 * 255) by (nonlinear_arith)
        requires
            z == ceil_div_spec(kt, 56403),
            ceil_div_spec(kt, 56403) * 56403 >= kt,
            z <= 255,
    ;
    if d > 0 {
        lemma_ceil_div_bounds(d, t);
        assert(d <= t * 56403 * 255) by (nonlinear_arith)
            requires
                ceil_div_spec(d, t) * t >= d,
                ceil_div_spec(d, t) <= kt,
                kt <= 56403 * 255,
                t > 0,
        ;
    }
}

/// Filename (or, for text, the text itself) and body of an inflated payload.
pub open spec fn spec_unwrap_inflated(inflated: Seq<u8>, is_text: bool) -> (Seq<char>, Seq<u8>) {
    if is_text {
        (utf8_lossy(inflated), inflated)
    } else if inflated.len() == 0 {
        (Seq::empty(), Seq::empty())
    } else {
        (utf8_lossy(split_preamble(inflated).0), split_preamble(inflated).1)
    }
}

/// Strip the filename/MIME preamble from an inflated payload (file mode),
/// or read it as text (text mode).
pub fn unwrap_inflated(inflated: Vec<u8>, is_text: bool) -> (r: (String, Vec<u8>))
    ensures
        (r.0@, r.1@) == spec_unwrap_inflated(inflated@, is_text),
        is_text ==> r.1@ == inflated@,
        is_text && valid_utf8(inflated@) ==> r.0@ == decode_utf8(inflated@),
        !is_text && inflated@.len() > 0 && valid_utf8(split_preamble(inflated@).0) ==> r.0@
            == decode_utf8(split_preamble(inflated@).0),
{
    if is_text {
        let text = lossy_string(inflated.as_slice());
        (text, inflated)
    } else {
        let b = inflated.as_slice();
        if b.len() == 0 {
            return (String::new(), Vec::new());
        }
        let name_len = b[0] as usize;
        let avail = b.len() - 1;
        let name_len = if name_len < avail {
            name_len
        } else {
            avail
        };
        let name_bytes = copy_range(b, 1, 1 + name_len);
        let name = lossy_string(name_bytes.as_slice());
        let mut pos = 1 + name_len;
        if pos < b.len() {
            let mime_len = b[pos] as usize;
            let avail2 = b.len() - pos - 1;
            let mime_len = if mime_len < avail2 {
                mime_len
            } else {
                avail2
            };
            pos = pos + 1 + mime_len;
        }
        let body = copy_range(b, pos, b.len());
        proof {
            let r = inflated@.drop_first();
            assert(name_bytes@ =~= r.take(name_len as int));
            let rest = r.skip(name_len as int);
            if rest.len() > 0 {
                assert(rest[0] == b@[1 + name_len as int]);
                assert(body@ =~= rest.drop_first().skip(pos - name_len - 2));
            } else {
                assert(body@ =~= rest);
            }
        }
        (name, body)
    }
}

/// Post-decode payload unwrapping: inflate (raw deflate) when `compressed`,
/// then strip the filename/MIME preamble (file mode) or read it as text.
pub fn unwrap_payload(data: Vec<u8>, compressed: bool, is_text: bool) -> (r: (String, Vec<u8>))
    ensures
        (r.0@, r.1@) == spec_unwrap_inflated(
            if compressed {
                raw_inflate(data@)
            } else {
                data@
            },
            is_text,
        ),
        ({
            let inflated = if compressed {
                raw_inflate(data@)
            } else {
                data@
            };
            &&& is_text ==> r.1@ == inflated
            &&& is_text && valid_utf8(inflated) ==> r.0@ == decode_utf8(inflated)
            &&& !is_text && inflated.len() > 0 && valid_utf8(split_preamble(inflated).0) ==> r.0@
                == decode_utf8(split_preamble(inflated).0)
        }),
{
    let inflated = if compressed {
        inflate_raw(data.as_slice())
    } else {
        data
    };
    unwrap_inflated(inflated, is_text)
}

/// Session lookup key: a transfer is identified by (data_length, symbol size).
#[derive(Debug, Clone, Copy, PartialEq, Eq, Hash, Structural)]
pub struct SessionKey {
    pub data_length: u32,
    pub transport_payload_size: usize,
}

} // verus!
