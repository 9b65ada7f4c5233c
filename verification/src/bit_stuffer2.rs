//! BitStuffer2 - Bit level compression for unsigned integer arrays
//!
//! A block is one header byte (bits 0..5: bits per element, bit 5: lookup table
//! flag, bits 6..8: how many bytes hold the element count), the element count in
//! 1, 2 or 4 little-endian bytes, and then the elements packed back to back, each
//! in the same number of bits, least significant bit first.
use vstd::prelude::*;
use crate::bit_math::{bit32, bits_value, byte_bit, le_value, le_bytes, lemma_bits_value_bits,
    lemma_bits_value_bound, lemma_value_from_bits, lemma_u32_shifts};
use crate::blob::{push_le, read_u16, read_u32};
use crate::error::{LepccError, Result, failed, wrong_param, is_failed, is_wrong_param, is_too_small};

verus! {

/// Number of binary digits of `v` (0 for 0).
pub open spec fn bit_width(v: nat) -> nat
    decreases v,
{
    if v == 0 {
        0
    } else {
        1 + bit_width(v / 2)
    }
}

/// The largest element (0 for no elements).
pub open spec fn seq_max(s: Seq<u32>) -> u32
    decreases s.len(),
{
    if s.len() == 0 {
        0
    } else if s.last() > seq_max(s.drop_last()) {
        s.last()
    } else {
        seq_max(s.drop_last())
    }
}

/// Number of bytes that hold an element count.
pub open spec fn count_size(count: u32) -> nat {
    if count < 256 {
        1
    } else if count < 65536 {
        2
    } else {
        4
    }
}

/// The two header bits that say how many bytes hold the element count.
pub open spec fn count_code(count: u32) -> nat {
    if count < 256 {
        2
    } else if count < 65536 {
        1
    } else {
        0
    }
}

/// Number of count bytes announced by the two header bits `code`.
pub open spec fn size_of_code(code: nat) -> nat {
    if code == 2 {
        1
    } else if code == 1 {
        2
    } else {
        4
    }
}

/// Bit `k` of the stream that holds every element of `data` in `width` bits.
pub open spec fn packed_bit(data: Seq<u32>, width: nat, k: int) -> bool {
    width > 0 && 0 <= k < data.len() * width && bit32(
        data[k / (width as int)],
        (k % (width as int)) as u32,
    )
}

/// Number of bytes that hold `count` elements of `width` bits.
pub open spec fn packed_len(count: nat, width: nat) -> nat {
    (count * width + 7) / 8
}

/// The elements of `data`, `width` bits each, packed into bytes.
pub open spec fn pack(data: Seq<u32>, width: nat) -> Seq<u8> {
    Seq::new(
        packed_len(data.len(), width),
        |j: int| bits_value(|k: int| packed_bit(data, width, k), 8 * j, 8) as u8,
    )
}

/// The first `count` elements of `width` bits each read back from packed bytes.
pub open spec fn unpack(payload: Seq<u8>, count: nat, width: nat) -> Seq<u32> {
    Seq::new(count, |i: int| bits_value(|k: int| byte_bit(payload, k), i * width, width) as u32)
}

/// The bits per element that the simple encoding uses for `data`.
pub open spec fn simple_width(data: Seq<u32>) -> nat {
    bit_width(seq_max(data) as nat)
}

/// `data` can be bit stuffed: it is empty or its elements fit in 31 bits.
pub open spec fn simple_encodable(data: Seq<u32>) -> bool {
    data.len() == 0 || simple_width(data) < 32
}

/// The simple (no lookup table) encoding of `data`.
pub open spec fn simple_encoding(data: Seq<u32>) -> Seq<u8> {
    if data.len() == 0 {
        Seq::empty()
    } else {
        let w = simple_width(data);
        let n = data.len() as u32;
        seq![(w + 64 * count_code(n)) as u8] + le_bytes(n as nat, count_size(n)) + pack(data, w)
    }
}

/// Number of bytes of a simple encoding of `count` elements whose largest is `max_elem`.
pub open spec fn simple_encoded_len(count: u32, max_elem: u32) -> nat {
    1 + count_size(count) + packed_len(count as nat, bit_width(max_elem as nat))
}

/// Number of count bytes announced by a block's header byte.
pub open spec fn block_count_size(data: Seq<u8>) -> nat {
    size_of_code((data[0] >> 6u8) as nat)
}

/// Element count of a block.
pub open spec fn block_count(data: Seq<u8>) -> nat {
    le_value(data, 1, block_count_size(data))
}

/// Bits per element of a block.
pub open spec fn block_width(data: Seq<u8>) -> nat {
    (data[0] & 0x1Fu8) as nat
}

/// The header byte of a block announces a lookup table.
pub open spec fn block_uses_lut(data: Seq<u8>) -> bool {
    data[0] & 0x20u8 != 0
}

/// The packed elements of a block and whatever follows them.
pub open spec fn block_payload(data: Seq<u8>) -> Seq<u8> {
    data.subrange(1 + block_count_size(data) as int, data.len() as int)
}

/// Number of bytes a block occupies, header included, as announced by its header.
pub open spec fn block_len(data: Seq<u8>) -> nat {
    1 + block_count_size(data) + packed_len(block_count(data), block_width(data))
}

/// The elements decoded from a block, or `None` when decoding fails.
pub open spec fn simple_decoding(data: Seq<u8>) -> Option<Seq<u32>> {
    if data.len() == 0 || data.len() - 1 < block_count_size(data) || block_uses_lut(data) {
        None
    } else if block_width(data) == 0 {
        Some(Seq::new(block_count(data), |i: int| 0u32))
    } else if block_payload(data).len() < packed_len(block_count(data), block_width(data)) {
        None
    } else {
        Some(unpack(block_payload(data), block_count(data), block_width(data)))
    }
}

/// The error reported when decoding `data` fails.
pub open spec fn simple_decoding_error(data: Seq<u8>, e: LepccError) -> bool {
    if data.len() == 0 {
        is_wrong_param(e, "Empty input data"@)
    } else if data.len() - 1 < block_count_size(data) {
        is_too_small(e, block_count_size(data) as int, data.len() - 1)
    } else if block_uses_lut(data) {
        is_failed(e, "LUT mode not implemented in simple decode"@)
    } else {
        is_too_small(
            e,
            packed_len(block_count(data), block_width(data)) as int,
            block_payload(data).len() as int,
        )
    }
}

// ---------------------------------------------------------------------------
// Facts about single bits.
// ---------------------------------------------------------------------------
proof fn lemma_or_shl(old: u32, val: u32, bp: u32, b: u32)
    requires
        bp < 32,
        b < 32,
    ensures
        bit32(old | (val << bp), b) == (bit32(old, b) || (bp <= b && bit32(val, (b - bp) as u32))),
{
    assert((((old | (val << bp)) >> b) & 1u32 == 1u32) == (((old >> b) & 1u32 == 1u32) || (bp <= b
        && ((val >> ((b - bp) as u32)) & 1u32 == 1u32)))) by (bit_vector)
        requires
            bp < 32,
            b < 32,
    ;
}

proof fn lemma_or_shr(old: u32, val: u32, s: u32, b: u32)
    requires
        0 < s < 32,
        b < 32,
    ensures
        bit32(old | (val >> s), b) == (bit32(old, b) || (b + s < 32 && bit32(val, (b + s) as u32))),
{
    assert((((old | (val >> s)) >> b) & 1u32 == 1u32) == (((old >> b) & 1u32 == 1u32) || (b + s < 32
        && ((val >> ((b + s) as u32)) & 1u32 == 1u32)))) by (bit_vector)
        requires
            0 < s < 32,
            b < 32,
    ;
}

proof fn lemma_high_bits_clear(val: u32, width: u32, r: u32)
    requires
        width < 32,
        val >> width == 0,
        width <= r < 32,
    ensures
        !bit32(val, r),
{
    assert(((val >> r) & 1u32) == 0u32) by (bit_vector)
        requires
            width < 32,
            val >> width == 0,
            width <= r < 32,
    ;
}

proof fn lemma_byte_of_word(x: u32, q: u32, r: u32)
    requires
        q < 4,
        r < 32,
    ensures
        bit32(((x >> (8 * q)) as u8) as u32, r) == (r < 8 && bit32(x, (8 * q + r) as u32)),
{
    assert((((((x >> (8 * q)) as u8) as u32) >> r) & 1u32 == 1u32) == (r < 8 && ((x >> (8 * q + r))
        & 1u32 == 1u32))) by (bit_vector)
        requires
            q < 4,
            r < 32,
    ;
}

proof fn lemma_word_of_bytes(b0: u8, b1: u8, b2: u8, b3: u8, b: u32)
    requires
        b < 32,
    ensures
        ({
            let w = (b0 as u32) | ((b1 as u32) << 8u32) | ((b2 as u32) << 16u32) | ((b3 as u32)
                << 24u32);
            &&& b < 8 ==> (bit32(w, b) == bit32(b0 as u32, b))
            &&& 8 <= b < 16 ==> (bit32(w, b) == bit32(b1 as u32, (b - 8) as u32))
            &&& 16 <= b < 24 ==> (bit32(w, b) == bit32(b2 as u32, (b - 16) as u32))
            &&& 24 <= b ==> (bit32(w, b) == bit32(b3 as u32, (b - 24) as u32))
        }),
{
    let w = (b0 as u32) | ((b1 as u32) << 8u32) | ((b2 as u32) << 16u32) | ((b3 as u32) << 24u32);
    assert((b < 8 ==> (((w >> b) & 1u32 == 1u32) == (((b0 as u32) >> b) & 1u32 == 1u32))) && (8 <= b
        < 16 ==> (((w >> b) & 1u32 == 1u32) == (((b1 as u32) >> ((b - 8) as u32)) & 1u32 == 1u32)))
        && (16 <= b < 24 ==> (((w >> b) & 1u32 == 1u32) == (((b2 as u32) >> ((b - 16) as u32)) & 1u32
        == 1u32))) && (24 <= b ==> (((w >> b) & 1u32 == 1u32) == (((b3 as u32) >> ((b - 24) as u32))
        & 1u32 == 1u32)))) by (bit_vector)
        requires
            w == (b0 as u32) | ((b1 as u32) << 8u32) | ((b2 as u32) << 16u32) | ((b3 as u32)
                << 24u32),
            b < 32,
    ;
}

proof fn lemma_extract_within(x: u32, bp: u32, width: u32, r: u32)
    requires
        1 <= width <= 31,
        bp + width <= 32,
        r < 32,
    ensures
        bit32((x << ((32 - width - bp) as u32)) >> ((32 - width) as u32), r) == (r < width && bit32(
            x,
            (bp + r) as u32,
        )),
{
    assert(((((x << ((32 - width - bp) as u32)) >> ((32 - width) as u32)) >> r) & 1u32 == 1u32) == (r
        < width && ((x >> ((bp + r) as u32)) & 1u32 == 1u32))) by (bit_vector)
        requires
            1 <= width <= 31,
            bp + width <= 32,
            r < 32,
    ;
}

proof fn lemma_extract_across(x: u32, y: u32, bp: u32, width: u32, r: u32)
    requires
        1 <= width <= 31,
        bp < 32,
        bp + width > 32,
        r < 32,
    ensures
        bit32(
            (x >> bp) | ((y << ((64 - width - bp) as u32)) >> ((32 - width) as u32)),
            r,
        ) == (r < width && (if r < 32 - bp {
            bit32(x, (bp + r) as u32)
        } else {
            bit32(y, (r - (32 - bp)) as u32)
        })),
{
    assert(((((x >> bp) | ((y << ((64 - width - bp) as u32)) >> ((32 - width) as u32))) >> r) & 1u32
        == 1u32) == (r < width && (if r < 32 - bp {
        ((x >> ((bp + r) as u32)) & 1u32 == 1u32)
    } else {
        ((y >> ((r - (32 - bp)) as u32)) & 1u32 == 1u32)
    }))) by (bit_vector)
        requires
            1 <= width <= 31,
            bp < 32,
            bp + width > 32,
            r < 32,
    ;
}

// ---------------------------------------------------------------------------
// Facts about the packed stream.
// ---------------------------------------------------------------------------
/// Bit `r` of element `i` sits at position `i * width + r` of the stream.
pub proof fn lemma_packed_bit_at(data: Seq<u32>, width: nat, i: int, r: int)
    requires
        width > 0,
        0 <= i < data.len(),
        0 <= r < width,
    ensures
        packed_bit(data, width, i * width + r) == bit32(data[i], r as u32),
        i * width + r < data.len() * width,
{
    vstd::arithmetic::div_mod::lemma_fundamental_div_mod_converse(
        i * width + r,
        width as int,
        i,
        r,
    );
    assert((i + 1) * width <= data.len() * width) by (nonlinear_arith)
        requires
            i + 1 <= data.len(),
            width > 0,
    ;
    assert((i + 1) * width == i * width + width) by (nonlinear_arith);
}

/// A 32-bit number has at most 32 binary digits, and none from its width on.
pub proof fn lemma_bit_width_shift(v: u32)
    ensures
        bit_width(v as nat) <= 32,
        bit_width(v as nat) < 32 ==> v >> (bit_width(v as nat) as u32) == 0,
        v >> 31u32 == 0 ==> bit_width(v as nat) <= 31,
    decreases v,
{
    if v == 0 {
        lemma_u32_shifts(0, 0);
    } else {
        let h = v >> 1u32;
        lemma_u32_shifts(v, 0);
        lemma_bit_width_shift(h);
        let w = bit_width(h as nat);
        if w < 32 {
            lemma_u32_shifts(v, w as u32);
        }
        if v >> 31u32 == 0 {
            lemma_width_below(h, 30);
        }
    }
}

/// A number whose bits from `k` on are clear has at most `k` binary digits.
pub proof fn lemma_width_below(v: u32, k: u32)
    requires
        k <= 31,
        v >> k == 0,
    ensures
        bit_width(v as nat) <= k,
    decreases k,
{
    if v != 0 {
        lemma_u32_shifts(v, k);
        if k != 0 {
            let h = v >> 1u32;
            let km1: u32 = (k - 1) as u32;
            lemma_width_below(h, km1);
        }
    }
}

/// A number with at most 8 binary digits is below 256.
pub proof fn lemma_bit_width_small(v: u32)
    ensures
        bit_width(v as nat) <= 8 ==> v < 256,
{
    lemma_bit_width_shift(v);
    let w = bit_width(v as nat);
    if w <= 8 {
        lemma_u32_shifts(v, w as u32);
    }
}

/// The largest element is bounded by any bound of all elements.
pub proof fn lemma_seq_max_le(s: Seq<u32>, bound: u32)
    requires
        forall|i: int| 0 <= i < s.len() ==> #[trigger] s[i] <= bound,
    ensures
        seq_max(s) <= bound,
    decreases s.len(),
{
    if s.len() > 0 {
        lemma_seq_max_le(s.drop_last(), bound);
    }
}

/// Length of the simple encoding of a non-empty sequence.
pub proof fn lemma_simple_encoding_len(data: Seq<u32>)
    requires
        data.len() > 0,
    ensures
        simple_encoding(data).len() == 1 + count_size(data.len() as u32) + packed_len(
            data.len(),
            simple_width(data),
        ),
{
    lemma_le_bytes_len(data.len() as u32 as nat, count_size(data.len() as u32));
}

/// Elements below 2^16 take at most 16 bits each.
pub proof fn lemma_width_of_small(data: Seq<u32>)
    requires
        forall|i: int| 0 <= i < data.len() ==> #[trigger] data[i] <= 0xFFFF,
    ensures
        simple_width(data) <= 16,
{
    lemma_seq_max_le(data, 0xFFFF);
    let m = seq_max(data);
    lemma_u32_shifts(m, 0);
    lemma_width_below(m, 16);
}

pub proof fn lemma_seq_max_bound(s: Seq<u32>, i: int)
    requires
        0 <= i < s.len(),
    ensures
        s[i] <= seq_max(s),
    decreases s.len(),
{
    if i < s.len() - 1 {
        lemma_seq_max_bound(s.drop_last(), i);
    }
}

/// Every element fits in the width of the largest one.
pub proof fn lemma_elements_fit(data: Seq<u32>, i: int)
    requires
        0 <= i < data.len(),
        simple_width(data) < 32,
    ensures
        data[i] >> (simple_width(data) as u32) == 0,
{
    let m = seq_max(data);
    lemma_seq_max_bound(data, i);
    lemma_bit_width_shift(m);
    let w = simple_width(data) as u32;
    let x = data[i];
    assert(x >> w == 0) by (bit_vector)
        requires
            x <= m,
            m >> w == 0,
            w < 32,
    ;
}

/// Reading back `count` elements of `width` bits from their packing gives the elements.
pub proof fn lemma_unpack_pack(data: Seq<u32>, width: nat, payload: Seq<u8>)
    requires
        0 < width < 32,
        forall|i: int| 0 <= i < data.len() ==> #[trigger] data[i] >> (width as u32) == 0,
        payload.len() >= packed_len(data.len(), width),
        payload.subrange(0, packed_len(data.len(), width) as int) == pack(data, width),
    ensures
        unpack(payload, data.len(), width) == data,
{
    let p = pack(data, width);
    let f = |k: int| packed_bit(data, width, k);
    let g = |k: int| byte_bit(payload, k);
    assert forall|k: int| 0 <= k < data.len() * width implies #[trigger] g(k) == f(k) by {
        let j = k / 8;
        let t = k % 8;
        assert(0 <= j < packed_len(data.len(), width));
        assert(payload.subrange(0, packed_len(data.len(), width) as int)[j] == payload[j]);
        assert(payload[j] == p[j]);
        lemma_bits_value_bits(f, 8 * j, 8);
        lemma_bits_value_bound(f, 8 * j, 8);
        vstd::arithmetic::power2::lemma2_to64();
        assert(p[j] == bits_value(f, 8 * j, 8) as u8);
        assert(p[j] as u32 == bits_value(f, 8 * j, 8) as u32);
        assert(bit32(p[j] as u32, t as u32) == (t < 8 && f(8 * j + t)));
        assert(8 * j + t == k);
    }
    assert forall|i: int| 0 <= i < data.len() implies #[trigger] unpack(payload, data.len(), width)[i]
        == data[i] by {
        assert forall|r: u32| r < 32 implies (#[trigger] bit32(data[i], r) <==> (r < width && g(
            i * width + r,
        ))) by {
            if r < width {
                lemma_packed_bit_at(data, width, i, r as int);
            } else {
                lemma_high_bits_clear(data[i], width as u32, r);
            }
        }
        lemma_value_from_bits(data[i], g, i * width, width);
    }
    assert(unpack(payload, data.len(), width) =~= data);
}

/// Decoding a simple encoding gives back the elements.
pub proof fn lemma_simple_roundtrip(data: Seq<u32>, tail: Seq<u8>)
    requires
        0 < data.len() <= u32::MAX,
        simple_width(data) < 32,
    ensures
        simple_decoding(simple_encoding(data) + tail) == Some(data),
        block_len(simple_encoding(data) + tail) == simple_encoding(data).len(),
{
    let n = data.len() as u32;
    let w = simple_width(data);
    let e = simple_encoding(data);
    let d = e + tail;
    let h = (w + 64 * count_code(n)) as u8;
    let c = count_code(n) as u8;
    assert(d[0] == h);
    let wb = w as u8;
    assert(h == wb + 64 * c);
    assert(wb < 32 && c <= 2 ==> ((wb + 64 * c) as u8 >> 6u8) == c && ((wb + 64 * c) as u8 & 0x1Fu8)
        == wb && ((wb + 64 * c) as u8 & 0x20u8) == 0) by (bit_vector);
    assert(block_count_size(d) == count_size(n));
    assert(block_width(d) == w);
    assert(!block_uses_lut(d));
    vstd::arithmetic::power2::lemma2_to64();
    lemma_le_bytes_len(n as nat, count_size(n));
    assert(d.subrange(1, 1 + count_size(n) as int) =~= le_bytes(n as nat, count_size(n)));
    lemma_le_bytes_value(n as nat, count_size(n), d, 1);
    assert(block_count(d) == n as nat);
    let payload = block_payload(d);
    let plen = packed_len(data.len(), w);
    assert(e.len() == 1 + count_size(n) + plen);
    assert(payload.subrange(0, plen as int) =~= pack(data, w));
    if w > 0 {
        assert forall|i: int| 0 <= i < data.len() implies #[trigger] data[i] >> (w as u32) == 0 by {
            lemma_elements_fit(data, i);
        }
        lemma_unpack_pack(data, w, payload);
    } else {
        assert forall|i: int| 0 <= i < data.len() implies #[trigger] data[i] == 0u32 by {
            lemma_elements_fit(data, i);
            lemma_u32_shifts(data[i], 0);
        }
        assert(Seq::new(block_count(d), |i: int| 0u32) =~= data);
    }
}

pub proof fn lemma_le_bytes_len(v: nat, nb: nat)
    ensures
        le_bytes(v, nb).len() == nb,
    decreases nb,
{
    if nb > 0 {
        lemma_le_bytes_len(v / 256, (nb - 1) as nat);
    }
}

/// Little-endian bytes written for `v` read back as `v` when `v` fits.
pub proof fn lemma_le_bytes_value(v: nat, nb: nat, d: Seq<u8>, start: int)
    requires
        v < vstd::arithmetic::power2::pow2(8 * nb),
        0 <= start,
        start + nb <= d.len(),
        d.subrange(start, start + nb) == le_bytes(v, nb),
    ensures
        le_value(d, start, nb) == v,
    decreases nb,
{
    if nb > 0 {
        vstd::arithmetic::power2::lemma_pow2_adds(8, (8 * (nb - 1)) as nat);
        vstd::arithmetic::power2::lemma2_to64();
        assert(8 * nb == 8 + 8 * (nb - 1)) by (nonlinear_arith);
        assert(d.subrange(start, start + nb)[0] == d[start]);
        assert(d[start] == le_bytes(v, nb)[0]);
        assert(le_bytes(v, nb)[0] == (v % 256) as u8);
        assert(d[start] as nat == v % 256);
        lemma_le_bytes_len(v / 256, (nb - 1) as nat);
        assert(d.subrange(start + 1, start + nb) =~= d.subrange(start, start + nb).subrange(
            1,
            nb as int,
        ));
        assert(le_bytes(v, nb).subrange(1, nb as int) =~= le_bytes(v / 256, (nb - 1) as nat));
        assert(d.subrange(start + 1, start + nb) == le_bytes(v / 256, (nb - 1) as nat));
        assert(v / 256 < vstd::arithmetic::power2::pow2((8 * (nb - 1)) as nat)) by (nonlinear_arith)
            requires
                v < vstd::arithmetic::power2::pow2(8 * nb),
                vstd::arithmetic::power2::pow2(8 * nb) == 256 * vstd::arithmetic::power2::pow2(
                    (8 * (nb - 1)) as nat,
                ),
        ;
        lemma_le_bytes_value(v / 256, (nb - 1) as nat, d, start + 1);
        vstd::arithmetic::div_mod::lemma_fundamental_div_mod(v as int, 256);
    } else {
        vstd::arithmetic::power2::lemma2_to64();
    }
}

/// Lossless compression of unsigned integer arrays by bit stuffing.
pub struct BitStuffer2;

impl BitStuffer2 {
    /// Encode unsigned integers using simple bit-stuffing
    pub fn encode_simple(data: &[u32]) -> (r: Result<Vec<u8>>)
        ensures
            r is Ok <==> simple_encodable(data@),
            r matches Ok(v) ==> v@ == simple_encoding(data@),
            r matches Err(e) ==> is_failed(e, "Too many bits needed for bit stuffing"@),
    {
        if data.len() == 0 {
            return Ok(Vec::new());
        }
        let max_elem = max_element(data);
        let num_bits = Self::bits_needed_32(max_elem);
        if num_bits >= 32 {
            return Err(failed("Too many bits needed for bit stuffing"));
        }
        let num_elements = data.len() as u32;
        let (nb, bits67) = Self::num_bytes_uint(num_elements);
        let header: u8 = (num_bits as u8) | (bits67 << 6u8);
        proof {
            let wb = num_bits as u8;
            assert(wb < 32 && bits67 <= 2 ==> (wb | (bits67 << 6u8)) == (wb + 64 * bits67) as u8)
                by (bit_vector);
        }
        let mut result: Vec<u8> = Vec::new();
        result.push(header);
        Self::encode_uint(&mut result, num_elements, nb);
        proof {
            assert forall|i: int| 0 <= i < data@.len() implies #[trigger] data@[i] >> (
            num_bits as u32) == 0 by {
                lemma_elements_fit(data@, i);
            }
        }
        Self::bit_stuff(&mut result, data, num_bits);
        proof {
            assert(result@ =~= simple_encoding(data@));
        }
        Ok(result)
    }

    /// Decode unsigned integers from bit-stuffed data
    pub fn decode(data: &[u8]) -> (r: Result<Vec<u32>>)
        ensures
            match r {
                Ok(v) => simple_decoding(data@) == Some(v@),
                Err(e) => simple_decoding(data@) is None && simple_decoding_error(data@, e),
            },
    {
        if data.len() == 0 {
            return Err(wrong_param("Empty input data"));
        }
        let num_bits_byte = data[0];
        let bits67 = (num_bits_byte >> 6u8) & 3u8;
        let nb: u8 = match bits67 {
            0 => 4,
            1 => 2,
            2 => 1,
            _ => 4,
        };
        proof {
            assert((num_bits_byte >> 6u8) & 3u8 == num_bits_byte >> 6u8 && num_bits_byte & 0x1Fu8 < 32)
                by (bit_vector);
        }
        let do_lut = (num_bits_byte & 0x20u8) != 0;
        let num_bits = (num_bits_byte & 0x1Fu8) as usize;
        let (num_elements, bytes_read) = Self::decode_uint(data, 1, nb)?;
        let pos = 1 + bytes_read;
        if do_lut {
            return Err(failed("LUT mode not implemented in simple decode"));
        }
        if num_bits == 0 {
            let mut result_vec: Vec<u32> = Vec::new();
            let count = num_elements as usize;
            let mut i: usize = 0;
            while i < count
                invariant
                    i <= count,
                    result_vec@ == Seq::new(i as nat, |j: int| 0u32),
                decreases count - i,
            {
                result_vec.push(0);
                i = i + 1;
                proof {
                    assert(result_vec@ =~= Seq::new(i as nat, |j: int| 0u32));
                }
            }
            return Ok(result_vec);
        }
        proof {
            assert(data@.subrange(pos as int, data@.len() as int) == block_payload(data@));
        }
        let payload = &data[pos..data.len()];
        let result_vec = Self::bit_unstuff(payload, num_elements, num_bits as u32)?;
        Ok(result_vec)
    }

    /// Compute the number of bytes needed to encode data with simple bit-stuffing
    pub fn compute_num_bytes_needed_simple(num_elem: u32, max_elem: u32) -> (n: usize)
        requires
            simple_encoded_len(num_elem, max_elem) <= usize::MAX,
        ensures
            n == simple_encoded_len(num_elem, max_elem),
    {
        let num_bits = Self::bits_needed_32(max_elem);
        let nb = Self::num_bytes_uint(num_elem).0;
        assert(num_elem as u64 * num_bits as u64 <= 0xFFFF_FFFFu64 * 32) by (nonlinear_arith)
            requires
                num_bits <= 32,
        ;
        let bits: u64 = num_elem as u64 * num_bits as u64;
        1 + nb as usize + ((bits + 7) / 8) as usize
    }

    /// Compute number of bits needed to represent the value (0-32 for 32-bit)
    pub fn bits_needed_32(value: u32) -> (n: usize)
        ensures
            n == bit_width(value as nat),
            n <= 32,
            n < 32 ==> value >> (n as u32) == 0,
    {
        let mut v: u32 = value;
        let mut num_bits: usize = 0;
        proof {
            lemma_bit_width_shift(value);
        }
        while num_bits < 32 && v > 0
            invariant
                num_bits <= 32,
                num_bits + bit_width(v as nat) == bit_width(value as nat),
                bit_width(value as nat) <= 32,
            decreases v,
        {
            proof {
                lemma_u32_shifts(v, 0);
            }
            v = v >> 1u32;
            num_bits = num_bits + 1;
        }
        num_bits
    }

    /// Get the number of bytes needed and the encoding for a u32 value
    fn num_bytes_uint(k: u32) -> (r: (u8, u8))
        ensures
            r.0 == count_size(k),
            r.1 == count_code(k),
    {
        let nb: u8 = if k < 256 {
            1
        } else if k < 65536 {
            2
        } else {
            4
        };
        let bits67: u8 = if nb == 4 {
            0
        } else {
            3 - nb
        };
        (nb, bits67)
    }

    /// Encode a u32 into the buffer
    fn encode_uint(buffer: &mut Vec<u8>, k: u32, nb: u8)
        requires
            nb == count_size(k),
        ensures
            final(buffer)@ == old(buffer)@ + le_bytes(k as nat, nb as nat),
    {
        push_le(buffer, k as u64, nb as usize);
    }

    /// Decode a u32 from `nb` bytes of the buffer starting at `start`
    fn decode_uint(data: &[u8], start: usize, nb: u8) -> (r: Result<(u32, usize)>)
        requires
            start <= data.len(),
            nb == 1 || nb == 2 || nb == 4,
        ensures
            match r {
                Ok((v, n)) => data.len() - start >= nb && v == le_value(data@, start as int, nb as nat)
                    && n == nb,
                Err(e) => data.len() - start < nb && is_too_small(
                    e,
                    nb as int,
                    data.len() - start,
                ),
            },
    {
        if data.len() - start < nb as usize {
            return Err(LepccError::BufferTooSmall { needed: nb as usize, provided: data.len() - start });
        }
        reveal_with_fuel(le_value, 5);
        let result: u32 = if nb == 1 {
            data[start] as u32
        } else if nb == 2 {
            read_u16(data, start) as u32
        } else {
            read_u32(data, start)
        };
        Ok((result, nb as usize))
    }

    /// Number of bytes at the end of the last 32-bit word that the packing does not use
    fn num_tail_bytes_not_needed(num_elem: u128, num_bits: u128) -> (n: u128)
        requires
            num_elem * num_bits <= u128::MAX,
        ensures
            n == (4 - ((num_elem * num_bits) % 32 + 7) / 8) % 4,
            n < 4,
    {
        let prod: u128 = num_elem * num_bits;
        let num_bits_tail = prod & 31u128;
        assert(prod & 31u128 == prod % 32 && (prod & 31u128) + 7 < 39 && ((prod & 31u128) + 7) as u128
            >> 3u128 == ((prod & 31u128) + 7) as u128 / 8) by (bit_vector);
        let num_bytes_tail = (num_bits_tail + 7) >> 3u128;
        if num_bytes_tail > 0 {
            4 - num_bytes_tail
        } else {
            0
        }
    }

    /// Bit-stuff the data into the output buffer
    fn bit_stuff(output: &mut Vec<u8>, data: &[u32], num_bits: usize)
        requires
            num_bits < 32,
            forall|i: int| 0 <= i < data@.len() ==> #[trigger] data@[i] >> (num_bits as u32) == 0,
        ensures
            final(output)@ == old(output)@ + pack(data@, num_bits as nat),
    {
        let n = data.len();
        let width = num_bits as u32;
        let ghost w = num_bits as nat;
        if num_bits == 0 {
            proof {
                assert(pack(data@, w) =~= Seq::<u8>::empty());
                assert(final(output)@ =~= old(output)@ + pack(data@, num_bits as nat));
            }
            return;
        }
        assert(n as u128 * num_bits as u128 <= 0xFFFF_FFFF_FFFF_FFFFu128 * 32) by (nonlinear_arith)
            requires
                num_bits < 32,
                n <= 0xFFFF_FFFF_FFFF_FFFFu128,
        ;
        let total: u128 = n as u128 * num_bits as u128;
        let num_uints_64: u128 = (total + 31) / 32;
        assert(num_uints_64 <= n) by (nonlinear_arith)
            requires
                total == n * width,
                width < 32,
                num_uints_64 == (total + 31) / 32,
        ;
        let num_uints = num_uints_64 as usize;
        let mut tmp: Vec<u32> = vec![0u32; num_uints];
        proof {
            assert forall|x: int, b: u32| 0 <= x < num_uints && b < 32 implies !(
            #[trigger] bit32(tmp@[x], b)) by {
                assert(tmp@[x] == 0u32);
                lemma_u32_shifts(0, b);
            }
        }
        let mut dst: usize = 0;
        let mut bit_pos: u32 = 0;
        let mut i: usize = 0;
        while i < n
            invariant
                n == data@.len(),
                0 < width < 32,
                w == width,
                total == n * w,
                num_uints == (total + 31) / 32,
                tmp@.len() == num_uints,
                i <= n,
                bit_pos < 32,
                32 * dst + bit_pos == i * w,
                forall|j: int| 0 <= j < data@.len() ==> #[trigger] data@[j] >> width == 0,
                forall|x: int, b: u32|
                    0 <= x < num_uints && b < 32 ==> (#[trigger] bit32(tmp@[x], b) <==> (32 * x + b
                        < i * w && packed_bit(data@, w, 32 * x + b))),
            decreases n - i,
        {
            let val = data[i];
            proof {
                assert((i + 1) * w <= n * w) by (nonlinear_arith)
                    requires
                        i < n,
                ;
                assert((i + 1) * w == i * w + w) by (nonlinear_arith);
            }
            let ghost old_tmp = tmp@;
            if 32 - bit_pos >= width {
                assert(dst < num_uints);
                let old_word = tmp[dst];
                tmp.set(dst, old_word | (val << bit_pos));
                proof {
                    assert forall|x: int, b: u32| 0 <= x < num_uints && b < 32 implies (
                    #[trigger] bit32(tmp@[x], b) <==> (32 * x + b < (i + 1) * w && packed_bit(
                        data@,
                        w,
                        32 * x + b,
                    ))) by {
                        if x == dst {
                            lemma_or_shl(old_word, val, bit_pos, b);
                            assert(bit32(old_word, b) <==> (32 * x + b < i * w && packed_bit(
                                data@,
                                w,
                                32 * x + b,
                            )));
                            if bit_pos <= b && b < bit_pos + width {
                                lemma_packed_bit_at(data@, w, i as int, (b - bit_pos) as int);
                            } else if b >= bit_pos + width {
                                lemma_high_bits_clear(val, width, (b - bit_pos) as u32);
                            }
                        } else {
                            assert(tmp@[x] == old_tmp[x]);
                            if x > dst {
                                assert(32 * x + b >= (i + 1) * w);
                            }
                        }
                    }
                }
                bit_pos = bit_pos + width;
                if bit_pos == 32 {
                    dst = dst + 1;
                    bit_pos = 0;
                }
            } else {
                assert(dst + 1 < num_uints);
                let old_word = tmp[dst];
                tmp.set(dst, old_word | (val << bit_pos));
                let ghost mid_tmp = tmp@;
                dst = dst + 1;
                let old_next = tmp[dst];
                let shift = 32 - bit_pos;
                tmp.set(dst, old_next | (val >> shift));
                proof {
                    let d0 = (dst - 1) as int;
                    assert forall|x: int, b: u32| 0 <= x < num_uints && b < 32 implies (
                    #[trigger] bit32(tmp@[x], b) <==> (32 * x + b < (i + 1) * w && packed_bit(
                        data@,
                        w,
                        32 * x + b,
                    ))) by {
                        if x == d0 {
                            assert(tmp@[x] == old_word | (val << bit_pos));
                            lemma_or_shl(old_word, val, bit_pos, b);
                            assert(bit32(old_word, b) <==> (32 * x + b < i * w && packed_bit(
                                data@,
                                w,
                                32 * x + b,
                            )));
                            if bit_pos <= b {
                                lemma_packed_bit_at(data@, w, i as int, (b - bit_pos) as int);
                            }
                        } else if x == dst {
                            lemma_or_shr(old_next, val, shift, b);
                            assert(old_next == old_tmp[x]);
                            assert(bit32(old_next, b) <==> (32 * x + b < i * w && packed_bit(
                                data@,
                                w,
                                32 * x + b,
                            )));
                            if b + shift < width {
                                lemma_packed_bit_at(data@, w, i as int, (b + shift) as int);
                            } else if b + shift < 32 {
                                lemma_high_bits_clear(val, width, (b + shift) as u32);
                            }
                        } else {
                            assert(tmp@[x] == old_tmp[x]);
                            if x > dst {
                                assert(32 * x + b >= (i + 1) * w);
                            }
                        }
                    }
                }
                bit_pos = bit_pos + width - 32;
            }
            i = i + 1;
        }
        // Copy the bytes that the packing uses to the output.
        let num_bytes_used: u128 = num_uints as u128 * 4 - Self::num_tail_bytes_not_needed(
            n as u128,
            num_bits as u128,
        );
        proof {
            assert(num_bytes_used == packed_len(n as nat, w)) by (nonlinear_arith)
                requires
                    num_uints == (total + 31) / 32,
                    num_bytes_used == num_uints * 4 - (4 - (total % 32 + 7) / 8) % 4,
                    total >= 0,
                    packed_len(n as nat, w) == (total + 7) / 8,
            ;
        }
        let ghost start = output@.len();
        let mut j: u128 = 0;
        while j < num_bytes_used
            invariant
                j <= num_bytes_used,
                num_bytes_used == packed_len(n as nat, w),
                num_bytes_used <= 4 * num_uints,
                tmp@.len() == num_uints,
                0 < w < 32,
                n == data@.len(),
                output@.len() == start + j,
                output@.subrange(0, start as int) == old(output)@,
                forall|x: int, b: u32|
                    0 <= x < num_uints && b < 32 ==> (#[trigger] bit32(tmp@[x], b) <==> (32 * x + b
                        < n * w && packed_bit(data@, w, 32 * x + b))),
                forall|q: int| 0 <= q < j ==> #[trigger] output@[start + q] == pack(data@, w)[q],
            decreases num_bytes_used - j,
        {
            let word = tmp[(j / 4) as usize];
            let q = (j % 4) as u32;
            let byte = (word >> (8 * q)) as u8;
            proof {
                let f = |k: int| packed_bit(data@, w, k);
                assert forall|r: u32| r < 32 implies (#[trigger] bit32(byte as u32, r) <==> (r < 8
                    && f(8 * j + r))) by {
                    lemma_byte_of_word(word, q, r);
                    if r < 8 {
                        assert(32 * (j / 4) + 8 * q + r == 8 * j + r);
                    }
                }
                lemma_value_from_bits(byte as u32, f, 8 * j, 8);
            }
            output.push(byte);
            j = j + 1;
        }
        proof {
            let expected = old(output)@ + pack(data@, num_bits as nat);
            assert forall|idx: int| 0 <= idx < output@.len() implies #[trigger] output@[idx]
                == expected[idx] by {
                if idx < start {
                    assert(output@.subrange(0, start as int)[idx] == output@[idx]);
                } else {
                    assert(output@[start + (idx - start)] == pack(data@, w)[idx - start]);
                }
            }
            assert(output@ =~= old(output)@ + pack(data@, num_bits as nat));
        }
    }

    /// Bit-unstuff `num_elements` elements of `num_bits` bits from the input
    fn bit_unstuff(input: &[u8], num_elements: u32, num_bits: u32) -> (r: Result<Vec<u32>>)
        requires
            0 < num_bits < 32,
        ensures
            match r {
                Ok(v) => input.len() >= packed_len(num_elements as nat, num_bits as nat) && v@
                    == unpack(input@, num_elements as nat, num_bits as nat),
                Err(e) => input.len() < packed_len(num_elements as nat, num_bits as nat)
                    && is_too_small(
                    e,
                    packed_len(num_elements as nat, num_bits as nat) as int,
                    input.len() as int,
                ),
            },
    {
        let ghost w = num_bits as nat;
        assert(num_elements as u64 * num_bits as u64 <= 0xFFFF_FFFFu64 * 32) by (nonlinear_arith)
            requires
                num_bits < 32,
        ;
        let total: u64 = num_elements as u64 * num_bits as u64;
        let num_uints_64: u64 = (total + 31) / 32;
        let num_bytes_full: u64 = num_uints_64 * 4;
        let num_bytes_used = num_bytes_full - Self::num_tail_bytes_not_needed(
            num_elements as u128,
            num_bits as u128,
        ) as u64;
        proof {
            assert(num_bytes_used == packed_len(num_elements as nat, w)) by (nonlinear_arith)
                requires
                    num_uints_64 == (total + 31) / 32,
                    num_bytes_used == num_uints_64 * 4 - (4 - (total % 32 + 7) / 8) % 4,
                    total >= 0,
                    packed_len(num_elements as nat, w) == (total + 7) / 8,
            ;
        }
        if (input.len() as u64) < num_bytes_used {
            return Err(
                LepccError::BufferTooSmall {
                    needed: num_bytes_used as usize,
                    provided: input.len(),
                },
            );
        }
        assert(num_uints_64 <= input.len() / 4 + 1);
        let num_uints = num_uints_64 as usize;
        // Read the bytes into 32-bit words, padding the last word with zeros.
        let mut tmp: Vec<u32> = Vec::new();
        let mut x: usize = 0;
        while x < num_uints
            invariant
                x <= num_uints,
                num_uints <= input.len() / 4 + 1,
                tmp@.len() == x,
                forall|y: int, b: u32|
                    0 <= y < x && b < 32 ==> (#[trigger] bit32(tmp@[y], b) <==> byte_bit(
                        input@,
                        32 * y + b,
                    )),
            decreases num_uints - x,
        {
            let off = 4 * x;
            let b0: u8 = if off < input.len() {
                input[off]
            } else {
                0
            };
            let b1: u8 = if off + 1 < input.len() {
                input[off + 1]
            } else {
                0
            };
            let b2: u8 = if off + 2 < input.len() {
                input[off + 2]
            } else {
                0
            };
            let b3: u8 = if off + 3 < input.len() {
                input[off + 3]
            } else {
                0
            };
            let word = (b0 as u32) | ((b1 as u32) << 8u32) | ((b2 as u32) << 16u32) | ((b3 as u32)
                << 24u32);
            proof {
                assert forall|b: u32| b < 32 implies (#[trigger] bit32(word, b) <==> byte_bit(
                    input@,
                    32 * x + b,
                )) by {
                    lemma_word_of_bytes(b0, b1, b2, b3, b);
                    let k = 32 * x + b;
                    assert(k / 8 == off + b / 8);
                    assert(k % 8 == b % 8);
                    assert(forall|v: u32, t: u32| t < 32 && v == 0 ==> !bit32(v, t)) by {
                        assert forall|v: u32, t: u32| t < 32 && v == 0 implies !bit32(v, t) by {
                            lemma_u32_shifts(0, t);
                        }
                    }
                }
            }
            tmp.push(word);
            x = x + 1;
        }
        // Do the unstuffing.
        let n = num_elements as usize;
        let mut result: Vec<u32> = Vec::new();
        let mut src: usize = 0;
        let mut bit_pos: u32 = 0;
        let nb = 32 - num_bits;
        let mut i: usize = 0;
        let ghost g = |k: int| byte_bit(input@, k);
        while i < n
            invariant
                n == num_elements,
                0 < num_bits < 32,
                w == num_bits,
                nb == 32 - num_bits,
                tmp@.len() == num_uints,
                num_uints == (total + 31) / 32,
                total == n * w,
                i <= n,
                bit_pos < 32,
                32 * src + bit_pos == i * w,
                result@.len() == i,
                g == (|k: int| byte_bit(input@, k)),
                forall|y: int, b: u32|
                    0 <= y < num_uints && b < 32 ==> (#[trigger] bit32(tmp@[y], b) <==> byte_bit(
                        input@,
                        32 * y + b,
                    )),
                forall|q: int| 0 <= q < i ==> #[trigger] result@[q] == unpack(input@, n as nat, w)[q],
            decreases n - i,
        {
            proof {
                assert((i + 1) * w <= n * w) by (nonlinear_arith)
                    requires
                        i < n,
                ;
                assert((i + 1) * w == i * w + w) by (nonlinear_arith);
            }
            let value: u32;
            if nb >= bit_pos {
                assert(src < num_uints);
                let word = tmp[src];
                value = (word << (nb - bit_pos)) >> nb;
                proof {
                    assert forall|r: u32| r < 32 implies (#[trigger] bit32(value, r) <==> (r < w && g(
                        i * w + r,
                    ))) by {
                        lemma_extract_within(word, bit_pos, num_bits, r);
                        if r < w {
                            assert(i * w + r == 32 * src + (bit_pos + r));
                        }
                    }
                    lemma_value_from_bits(value, g, i * w, w);
                }
                bit_pos = bit_pos + num_bits;
                if bit_pos >= 32 {
                    src = src + 1;
                    bit_pos = bit_pos - 32;
                }
            } else {
                assert(src + 1 < num_uints);
                let word = tmp[src];
                let next = tmp[src + 1];
                value = (word >> bit_pos) | ((next << (64 - num_bits - bit_pos)) >> nb);
                proof {
                    assert forall|r: u32| r < 32 implies (#[trigger] bit32(value, r) <==> (r < w && g(
                        i * w + r,
                    ))) by {
                        lemma_extract_across(word, next, bit_pos, num_bits, r);
                        if r < w {
                            if r < 32 - bit_pos {
                                assert(i * w + r == 32 * src + (bit_pos + r));
                            } else {
                                assert(i * w + r == 32 * (src + 1) + (r - (32 - bit_pos)));
                            }
                        }
                    }
                    lemma_value_from_bits(value, g, i * w, w);
                }
                src = src + 1;
                bit_pos = bit_pos - nb;
            }
            result.push(value);
            i = i + 1;
        }
        proof {
            assert(result@ =~= unpack(input@, num_elements as nat, w));
        }
        Ok(result)
    }
}

/// The largest element of a non-empty slice.
fn max_element(data: &[u32]) -> (m: u32)
    ensures
        m == seq_max(data@),
{
    let mut m: u32 = 0;
    let mut i: usize = 0;
    while i < data.len()
        invariant
            i <= data.len(),
            m == seq_max(data@.subrange(0, i as int)),
        decreases data.len() - i,
    {
        proof {
            assert(data@.subrange(0, i + 1).drop_last() =~= data@.subrange(0, i as int));
        }
        if data[i] > m {
            m = data[i];
        }
        i = i + 1;
    }
    proof {
        assert(data@.subrange(0, data@.len() as int) =~= data@);
    }
    m
}

/// A simple encoding takes at most 5 bytes more than 4 per value.
pub proof fn lemma_simple_encoding_bound(d: Seq<u32>)
    requires
        d.len() <= u32::MAX,
    ensures
        simple_encoding(d).len() <= 5 * d.len() + 5,
{
    if d.len() > 0 {
        lemma_simple_encoding_len(d);
        lemma_bit_width_shift(seq_max(d));
        let w = bit_width(seq_max(d) as nat);
        let n = d.len();
        assert((n * w + 7) / 8 <= 4 * n + 1) by (nonlinear_arith)
            requires
                w <= 32,
        ;
    }
}


} // verus!
