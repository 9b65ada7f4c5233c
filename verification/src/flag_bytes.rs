//! FlagBytes compression implementation
//!
//! After the 16-byte top header: the blob size (8 bytes), the number of bytes
//! (4 bytes), the compression method and the smallest byte (1 byte each), and
//! 2 reserved bytes; then the bytes less the smallest, bit stuffed, or the
//! Huffman coded bytes.
use vstd::prelude::*;
use crate::bit_math::{le_value, le_bytes};
use crate::bit_stuffer2::{BitStuffer2, seq_max, bit_width, simple_encoded_len, simple_encoding,
    simple_encodable, simple_decoding, simple_decoding_error};
use crate::blob::{HEADER_SIZE, seal, seal_blob, check_blob, checked_blob_size, checked_blob_error,
    blob_size_result, blob_size_error, read_u32, push_u32, push_u16, get_blob_size};
use crate::error::{LepccError, Result, failed, wrong_param, is_failed, is_wrong_param, is_too_small};
use crate::huffman::{Huffman, byte_histogram, huffman_size, table_after_codes, codes_computable,
    lengths_fit, huffman_table, code_table_bytes, all_coded, words_le, packed_codes, code_range,
    code_range_error, huffman_decoding, huffman_decoding_error, huffman_bytes, huffman_bytes_error};
use crate::text::{decimal, push_decimal};
use crate::types::Byte;

verus! {

/// The file key of flag byte blobs: `FlagBytes` and a space in ASCII.
pub open spec fn flag_key() -> Seq<u8> {
    seq![0x46u8, 0x6c, 0x61, 0x67, 0x42, 0x79, 0x74, 0x65, 0x73, 0x20]
}

fn file_key() -> (k: [u8; 10])
    ensures
        k@ == flag_key(),
{
    let k: [u8; 10] = [0x46u8, 0x6c, 0x61, 0x67, 0x42, 0x79, 0x74, 0x65, 0x73, 0x20];
    assert(k@ =~= flag_key());
    k
}

/// How the bytes are stored.
#[derive(Debug, Clone, Copy, PartialEq, Eq, Structural)]
pub enum CompressionMethod {
    BitStuff,
    HuffmanCodec,
}

/// The byte that stands for a compression method.
pub open spec fn method_code(m: CompressionMethod) -> u8 {
    match m {
        CompressionMethod::BitStuff => 0,
        CompressionMethod::HuffmanCodec => 1,
    }
}

fn method_byte(m: CompressionMethod) -> (b: u8)
    ensures
        b == method_code(m),
{
    match m {
        CompressionMethod::BitStuff => 0,
        CompressionMethod::HuffmanCodec => 1,
    }
}

/// The compression method stored as `v`.
pub fn method_from_byte(v: u8) -> (r: Result<CompressionMethod>)
    ensures
        v <= 1 ==> (r matches Ok(m) && method_code(m) == v),
        v > 1 ==> (r matches Err(e) && is_wrong_param(e, "Invalid compression method: "@ + decimal(v as nat))),
{
    match v {
        0 => Ok(CompressionMethod::BitStuff),
        1 => Ok(CompressionMethod::HuffmanCodec),
        _ => {
            let mut msg = String::from_str("Invalid compression method: ");
            push_decimal(&mut msg, v as u64);
            Err(LepccError::WrongParam(msg))
        },
    }
}

// --- choosing the method ------------------------------------------------------
/// Number of histogram entries among the first `k` that count something.
pub open spec fn nonzero_bins(h: Seq<i32>, k: int) -> int
    decreases k,
{
    if k <= 0 {
        0
    } else {
        nonzero_bins(h, k - 1) + if h[k - 1] != 0 {
            1int
        } else {
            0
        }
    }
}

/// The first entry from `i` on that counts something (255 when there is none).
pub open spec fn first_present(h: Seq<i32>, i: int) -> int
    decreases 255 - i,
{
    if i >= 255 || h[i] != 0 {
        i
    } else {
        first_present(h, i + 1)
    }
}

/// The last entry at or before `i` that counts something (0 when there is none).
pub open spec fn last_present(h: Seq<i32>, i: int) -> int
    decreases i,
{
    if i <= 0 || h[i] != 0 {
        i
    } else {
        last_present(h, i - 1)
    }
}

/// Bytes of the bit-stuffed bytes: their range is that of the bytes present.
pub open spec fn bit_stuff_size(data: Seq<u8>) -> int {
    let h = byte_histogram(data);
    simple_encoded_len(
        data.len() as u32,
        (last_present(h, 255) - first_present(h, 0)) as u8 as u32,
    ) as int
}

/// The Huffman size tried for the bytes (only with two different bytes or more).
pub open spec fn huffman_try(t: Seq<(u16, u32)>, data: Seq<u8>) -> Option<int> {
    let h = byte_histogram(data);
    if nonzero_bins(h, 256) > 1 {
        huffman_size(t, h)
    } else {
        None
    }
}

/// Huffman coding is chosen: it was tried and is smaller than bit stuffing.
pub open spec fn chooses_huffman(t: Seq<(u16, u32)>, data: Seq<u8>) -> bool {
    match huffman_try(t, data) {
        Some(n) => 0 < n < bit_stuff_size(data),
        None => false,
    }
}

/// The Huffman code table after the bytes were measured.
pub open spec fn huffman_table_after(t: Seq<(u16, u32)>, data: Seq<u8>) -> Seq<(u16, u32)> {
    let h = byte_histogram(data);
    if nonzero_bins(h, 256) > 1 {
        table_after_codes(t, h)
    } else {
        t
    }
}

// --- the blob -----------------------------------------------------------------
/// The bytes less `min`.
pub open spec fn less_min(data: Seq<u8>, min: u8) -> Seq<u32> {
    Seq::new(data.len(), |i: int| (data[i] - min) as u32)
}

/// The stored bytes under a method.
pub open spec fn flag_body(method: CompressionMethod, min: u8, data: Seq<u8>) -> Option<Seq<u8>> {
    if method == CompressionMethod::BitStuff {
        Some(simple_encoding(less_min(data, min)))
    } else {
        huffman_bytes(data)
    }
}

/// The flag byte blob of `data` under a method and a smallest byte.
pub open spec fn flag_blob(method: CompressionMethod, min: u8, data: Seq<u8>, body: Seq<u8>) -> Seq<u8> {
    seal(
        flag_key(),
        le_bytes(data.len() as u32 as nat, 4) + seq![method_code(method), min] + le_bytes(0, 2) + body,
    )
}

// --- decoding -------------------------------------------------------------------
/// Number of bytes recorded in the header.
pub open spec fn flag_count(d: Seq<u8>) -> nat {
    le_value(d, 24, 4)
}

/// The bytes decoded from a flag byte blob, or `None` when decoding fails.
pub open spec fn flag_decoding(d: Seq<u8>) -> Option<Seq<u8>> {
    match checked_blob_size(d, flag_key()) {
        None => None,
        Some(n) => if d.len() < 32 || d[28] > 1 || n < 32 {
            None
        } else if d[28] == 1 {
            huffman_decoding(d.subrange(32, n as int), flag_count(d))
        } else {
            match simple_decoding(d.subrange(32, n as int)) {
                None => None,
                Some(v) => {
                    let k = if flag_count(d) < v.len() {
                        flag_count(d)
                    } else {
                        v.len()
                    };
                    Some(Seq::new(k, |i: int| vstd::wrapping::u8_specs::wrapping_add(v[i] as u8, d[29])))
                },
            }
        },
    }
}

/// The error reported when decoding a flag byte blob fails.
pub open spec fn flag_decoding_error(d: Seq<u8>, e: LepccError) -> bool {
    match checked_blob_size(d, flag_key()) {
        None => checked_blob_error(d, flag_key(), e),
        Some(n) => if d.len() < 32 {
            is_too_small(e, 32, d.len() as int)
        } else if d[28] > 1 {
            is_wrong_param(e, "Invalid compression method: "@ + decimal(d[28] as nat))
        } else if n < 32 {
            is_failed(e, "Invalid blob size"@)
        } else if d[28] == 1 {
            huffman_decoding_error(d.subrange(32, n as int), e)
        } else {
            simple_decoding_error(d.subrange(32, n as int), e)
        },
    }
}

pub struct FlagBytesEncoder {
    num_bytes_needed: i64,
    min_value: Byte,
    compression_method: CompressionMethod,
    huffman: Huffman,
}

impl Default for FlagBytesEncoder {
    fn default() -> (e: Self)
        ensures
            e.is_fresh(),
    {
        Self::new()
    }
}

impl FlagBytesEncoder {
    /// The method chosen by the last size computation.
    pub closed spec fn method(self) -> CompressionMethod {
        self.compression_method
    }

    /// The smallest byte recorded by the last size computation.
    pub closed spec fn min_value(self) -> u8 {
        self.min_value
    }

    /// The code table of the Huffman coder used to measure.
    pub closed spec fn codes(self) -> Seq<(u16, u32)> {
        self.huffman.table()
    }

    /// The size computed last.
    pub closed spec fn num_bytes(self) -> int {
        self.num_bytes_needed as int
    }

    /// The Huffman coder is in order.
    pub closed spec fn wf(self) -> bool {
        self.huffman.wf()
    }

    /// The state of a new encoder.
    pub open spec fn is_fresh(self) -> bool {
        &&& self.wf()
        &&& self.method() == CompressionMethod::BitStuff
        &&& self.min_value() == 0
        &&& self.codes() == Seq::<(u16, u32)>::empty()
        &&& self.num_bytes() == 0
    }

    pub fn new() -> (e: Self)
        ensures
            e.is_fresh(),
    {
        FlagBytesEncoder {
            num_bytes_needed: 0,
            min_value: 0,
            compression_method: CompressionMethod::BitStuff,
            huffman: Huffman::new(),
        }
    }

    /// Compute the number of bytes needed to encode flag bytes: Huffman coded
    /// where that is smaller than bit stuffing, bit stuffed otherwise.
    pub fn compute_num_bytes_needed(&mut self, flag_bytes: &[Byte]) -> (r: Result<i64>)
        requires
            old(self).wf(),
            flag_bytes@.len() <= i32::MAX,
        ensures
            final(self).wf(),
            flag_bytes@.len() == 0 ==> (r matches Err(e) && is_wrong_param(e, "No flag bytes provided"@)
                && *final(self) == *old(self)),
            flag_bytes@.len() > 0 ==> (r matches Ok(n) && 32 < n <= 32 + bit_stuff_size(flag_bytes@)),
            flag_bytes@.len() > 0 ==> (r matches Ok(n) && n == final(self).num_bytes() && final(self).codes()
                == huffman_table_after(old(self).codes(), flag_bytes@) && if chooses_huffman(
                old(self).codes(),
                flag_bytes@,
            ) {
                &&& final(self).method() == CompressionMethod::HuffmanCodec
                &&& final(self).min_value() == 0
                &&& n == 32 + huffman_try(old(self).codes(), flag_bytes@).unwrap()
            } else {
                &&& final(self).method() == CompressionMethod::BitStuff
                &&& final(self).min_value() == first_present(byte_histogram(flag_bytes@), 0) as u8
                &&& n == 32 + bit_stuff_size(flag_bytes@)
            }),
    {
        if flag_bytes.len() == 0 {
            return Err(wrong_param("No flag bytes provided"));
        }
        let ghost d = flag_bytes@;
        let ghost h = byte_histogram(d);
        // Calculate histogram
        let mut histo: Vec<i32> = Vec::new();
        let mut v: usize = 0;
        while v < 256
            invariant
                v <= 256,
                histo@ == Seq::new(v as nat, |u: int| 0i32),
            decreases 256 - v,
        {
            histo.push(0);
            v = v + 1;
            proof {
                assert(histo@ =~= Seq::new(v as nat, |u: int| 0i32));
            }
        }
        let mut num_non_zero_bins: usize = 0;
        let mut j: usize = 0;
        proof {
            lemma_bins_zero(histo@, 256);
        }
        while j < flag_bytes.len()
            invariant
                d == flag_bytes@,
                j <= d.len(),
                d.len() <= i32::MAX,
                histo@.len() == 256,
                forall|u: int| 0 <= u < 256 ==> #[trigger] histo@[u] == crate::huffman::byte_count(d, u, j as int),
                forall|u: int| 0 <= u < 256 ==> 0 <= #[trigger] crate::huffman::byte_count(d, u, j as int) <= j,
                num_non_zero_bins == nonzero_bins(histo@, 256),
                num_non_zero_bins <= 256,
            decreases d.len() - j,
        {
            let b = flag_bytes[j] as usize;
            proof {
                assert forall|u: int| 0 <= u < 256 implies 0 <= #[trigger] crate::huffman::byte_count(d, u, j + 1) <= j + 1 by {
                    assert(crate::huffman::byte_count(d, u, j + 1) == crate::huffman::byte_count(d, u, j as int) + if d[j as int] == u { 1int } else { 0 });
                }
            }
            let c = histo[b];
            let ghost before = histo@;
            if c == 0 {
                num_non_zero_bins = num_non_zero_bins + 1;
            }
            histo.set(b, c + 1);
            proof {
                lemma_bins_bump(before, b as int, 256);
                lemma_bins_bound(histo@, 256);
            }
            j = j + 1;
        }
        proof {
            assert(histo@ =~= h);
        }
        // Try Huffman
        let mut n_bytes_huffman: Option<i64> = None;
        if num_non_zero_bins > 1 {
            self.compression_method = CompressionMethod::HuffmanCodec;
            self.min_value = 0;
            n_bytes_huffman = self.huffman.compute_num_bytes_needed_to_encode(histo.as_slice());
        }
        // Bit stuff: the range of the bytes present
        let mut i0: usize = 0;
        while histo[i0] == 0 && i0 < 255
            invariant
                i0 <= 255,
                histo@ == h,
                h.len() == 256,
                first_present(h, 0) == first_present(h, i0 as int),
            decreases 255 - i0,
        {
            i0 = i0 + 1;
        }
        let mut i1: usize = 255;
        while histo[i1] == 0 && i1 > 0
            invariant
                i1 <= 255,
                histo@ == h,
                h.len() == 256,
                last_present(h, 255) == last_present(h, i1 as int),
            decreases i1,
        {
            i1 = i1 - 1;
        }
        proof {
            lemma_present_order(d);
        }
        let max_elem = (i1 - i0) as u8;
        proof {
            lemma_encoded_len_small(d.len() as u32, max_elem as u32);
        }
        let n_bytes_bit_stuff = BitStuffer2::compute_num_bytes_needed_simple(flag_bytes.len() as u32, max_elem as u32) as i64;
        // Choose the better method
        let huff_better = match n_bytes_huffman {
            Some(n) => n > 0 && n < n_bytes_bit_stuff,
            None => false,
        };
        if huff_better {
            let n = n_bytes_huffman.unwrap();
            self.compression_method = CompressionMethod::HuffmanCodec;
            self.num_bytes_needed = HEADER_SIZE as i64 + n;
        } else {
            self.compression_method = CompressionMethod::BitStuff;
            self.min_value = i0 as u8;
            self.num_bytes_needed = HEADER_SIZE as i64 + n_bytes_bit_stuff;
        }
        Ok(self.num_bytes_needed)
    }
}

/// One more count in bin `b`.
proof fn lemma_bins_bump(h: Seq<i32>, b: int, k: int)
    requires
        0 <= b < h.len(),
        0 <= k <= h.len(),
        h[b] >= 0,
        h[b] < i32::MAX,
    ensures
        nonzero_bins(h.update(b, (h[b] + 1) as i32), k) == nonzero_bins(h, k) + if h[b] == 0 && b < k {
            1int
        } else {
            0
        },
    decreases k,
{
    if k > 0 {
        lemma_bins_bump(h, b, k - 1);
    }
}

proof fn lemma_bins_bound(h: Seq<i32>, k: int)
    requires
        0 <= k <= h.len(),
    ensures
        0 <= nonzero_bins(h, k) <= k,
    decreases k,
{
    if k > 0 {
        lemma_bins_bound(h, k - 1);
    }
}

/// The first byte present comes no later than the last one.
proof fn lemma_present_order(d: Seq<u8>)
    requires
        d.len() > 0,
        d.len() <= i32::MAX,
    ensures
        first_present(byte_histogram(d), 0) <= last_present(byte_histogram(d), 255),
        0 <= first_present(byte_histogram(d), 0) <= 255,
        0 <= last_present(byte_histogram(d), 255) <= 255,
{
    let h = byte_histogram(d);
    let v = d[0] as int;
    lemma_count_first(d, v, d.len() as int);
    lemma_count_bound(d, v, d.len() as int);
    assert(h[v] != 0);
    lemma_first_present(h, 0, v);
    lemma_last_present(h, 255, v);
}

proof fn lemma_count_first(d: Seq<u8>, v: int, k: int)
    requires
        1 <= k <= d.len(),
        d[0] == v,
    ensures
        crate::huffman::byte_count(d, v, k) >= 1,
    decreases k,
{
    if k > 1 {
        lemma_count_first(d, v, k - 1);
        lemma_count_nonneg(d, v, k - 1);
    } else {
        assert(crate::huffman::byte_count(d, v, 0) == 0);
    }
}

proof fn lemma_bins_zero(h: Seq<i32>, k: int)
    requires
        0 <= k <= h.len(),
        forall|i: int| 0 <= i < k ==> h[i] == 0,
    ensures
        nonzero_bins(h, k) == 0,
    decreases k,
{
    if k > 0 {
        lemma_bins_zero(h, k - 1);
    }
}

proof fn lemma_count_nonneg(d: Seq<u8>, v: int, k: int)
    ensures
        crate::huffman::byte_count(d, v, k) >= 0,
    decreases k,
{
    if k > 0 {
        lemma_count_nonneg(d, v, k - 1);
    }
}

proof fn lemma_count_bound(d: Seq<u8>, v: int, k: int)
    requires
        0 <= k <= d.len(),
    ensures
        crate::huffman::byte_count(d, v, k) <= k,
    decreases k,
{
    if k > 0 {
        lemma_count_bound(d, v, k - 1);
    }
}

proof fn lemma_first_present(h: Seq<i32>, i: int, v: int)
    requires
        0 <= i <= v <= 255,
        h.len() == 256,
        h[v] != 0,
    ensures
        i <= first_present(h, i) <= v,
    decreases 255 - i,
{
    if i < 255 && h[i] == 0 {
        lemma_first_present(h, i + 1, v);
    }
}

proof fn lemma_last_present(h: Seq<i32>, i: int, v: int)
    requires
        0 <= v <= i <= 255,
        h.len() == 256,
        h[v] != 0,
    ensures
        v <= last_present(h, i) <= i,
        h[last_present(h, i)] != 0,
    decreases i,
{
    if i > 0 && h[i] == 0 {
        lemma_last_present(h, i - 1, v);
    }
}

/// A simple encoding of bytes is small.
proof fn lemma_encoded_len_small(count: u32, max_elem: u32)
    requires
        max_elem <= 255,
    ensures
        simple_encoded_len(count, max_elem) <= 5 + (count * 8 + 7) / 8,
{
    crate::bit_math::lemma_u32_shifts(max_elem, 0);
    crate::bit_stuffer2::lemma_width_below(max_elem, 8);
    let w = bit_width(max_elem as nat);
    assert((count * w + 7) / 8 <= (count * 8 + 7) / 8) by (nonlinear_arith)
        requires
            w <= 8,
    ;
}


/// The words of a code take four bytes each.
impl FlagBytesEncoder {
    /// Encode flag bytes
    pub fn encode(&self, flag_bytes: &[Byte]) -> (r: Result<Vec<Byte>>)
        requires
            flag_bytes@.len() <= i32::MAX,
            self.method() == CompressionMethod::BitStuff ==> forall|i: int|
                0 <= i < flag_bytes@.len() ==> self.min_value() <= #[trigger] flag_bytes@[i],
        ensures
            match flag_body(self.method(), self.min_value(), flag_bytes@) {
                Some(body) => r matches Ok(v) && v@ == flag_blob(self.method(), self.min_value(), flag_bytes@, body),
                None => r matches Err(e) && huffman_bytes_error(flag_bytes@, e),
            },
    {
        let method = self.compression_method;
        let min_value = self.min_value;
        let mut rest: Vec<u8> = Vec::new();
        push_u32(&mut rest, flag_bytes.len() as u32);
        rest.push(method_byte(method));
        rest.push(min_value);
        push_u16(&mut rest, 0);
        let ghost head = rest@;
        let encoded = if method == CompressionMethod::BitStuff {
            let mut data_vec: Vec<u32> = Vec::new();
            let mut i: usize = 0;
            while i < flag_bytes.len()
                invariant
                    i <= flag_bytes@.len(),
                    forall|j: int| 0 <= j < flag_bytes@.len() ==> min_value <= #[trigger] flag_bytes@[j],
                    data_vec@ == less_min(flag_bytes@, min_value).take(i as int),
                decreases flag_bytes@.len() - i,
            {
                data_vec.push(flag_bytes[i] as u32 - min_value as u32);
                i = i + 1;
                proof {
                    assert(data_vec@ =~= less_min(flag_bytes@, min_value).take(i as int));
                }
            }
            proof {
                let lm = less_min(flag_bytes@, min_value);
                assert(data_vec@ =~= lm);
                assert forall|j: int| 0 <= j < lm.len() implies #[trigger] lm[j] <= 255u32 by {}
                crate::bit_stuffer2::lemma_seq_max_le(lm, 255);
                let m = seq_max(lm);
                crate::bit_math::lemma_u32_shifts(m, 0);
                crate::bit_stuffer2::lemma_width_below(m, 8);
                crate::bit_stuffer2::lemma_simple_encoding_bound(lm);
            }
            match BitStuffer2::encode_simple(data_vec.as_slice()) {
                Ok(v) => v,
                Err(e) => {
                    return Err(e);
                },
            }
        } else {
            let mut huffman = Huffman::new();
            match huffman.encode(flag_bytes) {
                Ok(v) => v,
                Err(e) => {
                    return Err(e);
                },
            }
        };
        append(&mut rest, &encoded);
        proof {
            crate::bit_stuffer2::lemma_le_bytes_len(flag_bytes@.len() as u32 as nat, 4);
            crate::bit_stuffer2::lemma_le_bytes_len(0, 2);
            assert(rest@ =~= le_bytes(flag_bytes@.len() as u32 as nat, 4) + seq![method_code(method), min_value] + le_bytes(0, 2) + encoded@);
        }
        let key = file_key();
        Ok(seal_blob(&key, rest.as_slice()))
    }
}

/// Appends `bytes`.
fn append(buffer: &mut Vec<u8>, bytes: &Vec<u8>)
    ensures
        final(buffer)@ == old(buffer)@ + bytes@,
{
    let ghost start = buffer@;
    let mut i: usize = 0;
    while i < bytes.len()
        invariant
            i <= bytes@.len(),
            buffer@ == start + bytes@.take(i as int),
        decreases bytes@.len() - i,
    {
        buffer.push(bytes[i]);
        i = i + 1;
        proof {
            assert(buffer@ =~= start + bytes@.take(i as int));
        }
    }
    proof {
        assert(bytes@.take(bytes@.len() as int) =~= bytes@);
    }
}

pub struct FlagBytesDecoder;

impl FlagBytesDecoder {
    /// The blob size recorded in the header of a flag byte blob.
    pub fn get_blob_size(data: &[Byte]) -> (r: Result<u32>)
        ensures
            match r {
                Ok(n) => blob_size_result(data@, flag_key()) == Some(n as nat),
                Err(e) => blob_size_result(data@, flag_key()) is None && blob_size_error(
                    data@,
                    flag_key(),
                    e,
                ),
            },
    {
        let key = file_key();
        get_blob_size(data, &key)
    }

    /// The number of bytes recorded in the header.
    pub fn get_num_points(data: &[Byte]) -> (r: Result<u32>)
        ensures
            match r {
                Ok(n) => data@.len() >= 32 && n == flag_count(data@),
                Err(e) => data@.len() < 32 && is_too_small(e, 32, data@.len() as int),
            },
    {
        if data.len() < HEADER_SIZE {
            return Err(LepccError::BufferTooSmall { needed: HEADER_SIZE, provided: data.len() });
        }
        Ok(read_u32(data, 24))
    }

    /// Decode flag bytes
    pub fn decode(data: &[Byte]) -> (r: Result<Vec<Byte>>)
        ensures
            match r {
                Ok(v) => flag_decoding(data@) == Some(v@),
                Err(e) => flag_decoding(data@) is None && flag_decoding_error(data@, e),
            },
    {
        let key = file_key();
        let blob_size = check_blob(data, &key)?;
        if data.len() < HEADER_SIZE {
            return Err(LepccError::BufferTooSmall { needed: HEADER_SIZE, provided: data.len() });
        }
        let num_elem = read_u32(data, 24) as usize;
        let compression_method = method_from_byte(data[28])?;
        if blob_size < HEADER_SIZE {
            return Err(failed("Invalid blob size"));
        }
        let data_start = HEADER_SIZE;
        let slice = vstd::slice::slice_subrange(data, data_start, blob_size);
        let mut result: Vec<u8> = Vec::new();
        if compression_method == CompressionMethod::BitStuff {
            let min_value = data[29];
            let decoded = BitStuffer2::decode(slice)?;
            let count = if num_elem < decoded.len() {
                num_elem
            } else {
                decoded.len()
            };
            let mut i: usize = 0;
            while i < count
                invariant
                    i <= count,
                    count <= decoded@.len(),
                    result@ == Seq::new(i as nat, |j: int| vstd::wrapping::u8_specs::wrapping_add(decoded@[j] as u8, min_value)),
                decreases count - i,
            {
                result.push((decoded[i] as u8).wrapping_add(min_value));
                i = i + 1;
                proof {
                    assert(result@ =~= Seq::new(i as nat, |j: int| vstd::wrapping::u8_specs::wrapping_add(decoded@[j] as u8, min_value)));
                }
            }
            Ok(result)
        } else {
            let huffman = Huffman::new();
            huffman.decode(slice, num_elem)
        }
    }
}


/// The smallest byte present is no larger than any byte.
pub proof fn lemma_min_is_smallest(d: Seq<u8>)
    requires
        d.len() <= i32::MAX,
    ensures
        forall|i: int| 0 <= i < d.len() ==> first_present(byte_histogram(d), 0) as u8 <= #[trigger] d[i],
{
    let h = byte_histogram(d);
    assert forall|i: int| 0 <= i < d.len() implies first_present(h, 0) as u8 <= #[trigger] d[i] by {
        let v = d[i] as int;
        lemma_count_occurs(d, v, i, d.len() as int);
        lemma_count_bound(d, v, d.len() as int);
        assert(h[v] != 0);
        lemma_first_present(h, 0, v);
    }
}

proof fn lemma_count_occurs(d: Seq<u8>, v: int, i: int, k: int)
    requires
        0 <= i < k <= d.len(),
        d[i] == v,
    ensures
        crate::huffman::byte_count(d, v, k) >= 1,
    decreases k,
{
    if k - 1 > i {
        lemma_count_occurs(d, v, i, k - 1);
    } else {
        lemma_count_nonneg(d, v, k - 1);
    }
}

/// The blob the encoder writes for `data` when it bit stuffs: the bytes less the
/// smallest of them.
pub open spec fn stuffed_flag_blob(data: Seq<u8>) -> Seq<u8> {
    let m = first_present(byte_histogram(data), 0) as u8;
    flag_blob(CompressionMethod::BitStuff, m, data, simple_encoding(less_min(data, m)))
}

/// Decoding the bit-stuffed flag byte blob of non-empty `data` gives back `data`.
#[verifier::rlimit(40)]
pub proof fn lemma_flag_roundtrip(data: Seq<u8>)
    requires
        0 < data.len() <= i32::MAX,
    ensures
        flag_decoding(stuffed_flag_blob(data)) == Some(data),
        checked_blob_size(stuffed_flag_blob(data), flag_key()) == Some(stuffed_flag_blob(data).len()),
        flag_count(stuffed_flag_blob(data)) == data.len(),
{
    let m = first_present(byte_histogram(data), 0) as u8;
    let v = less_min(data, m);
    let body = simple_encoding(v);
    let n = data.len() as u32;
    lemma_flag_blob_size(data);
    lemma_encoded_len_small(n, (last_present(byte_histogram(data), 255) - first_present(byte_histogram(data), 0)) as u8 as u32);
    assert(stuffed_flag_blob(data).len() <= u32::MAX);
    lemma_min_is_smallest(data);
    assert forall|i: int| 0 <= i < v.len() implies #[trigger] v[i] <= 255u32 by {
        assert(m <= data[i]);
    }
    crate::bit_stuffer2::lemma_seq_max_le(v, 255);
    crate::bit_math::lemma_u32_shifts(seq_max(v), 0);
    crate::bit_stuffer2::lemma_width_below(seq_max(v), 8);
    crate::bit_stuffer2::lemma_simple_roundtrip(v, Seq::empty());
    assert(body + Seq::<u8>::empty() =~= body);
    crate::bit_stuffer2::lemma_le_bytes_len(n as nat, 4);
    crate::bit_stuffer2::lemma_le_bytes_len(0, 2);
    let rest = le_bytes(n as nat, 4) + seq![method_code(CompressionMethod::BitStuff), m] + le_bytes(0, 2)
        + body;
    let b = seal(flag_key(), rest);
    assert(b == stuffed_flag_blob(data));
    let tail = le_bytes((24 + rest.len()) as nat, 8) + rest;
    crate::bit_stuffer2::lemma_le_bytes_len(crate::blob::K_CURR_VERSION as nat, 2);
    crate::bit_stuffer2::lemma_le_bytes_len(crate::common::fletcher32(tail) as nat, 4);
    crate::bit_stuffer2::lemma_le_bytes_len((24 + rest.len()) as nat, 8);
    crate::blob::lemma_seal_checks(flag_key(), rest, Seq::empty());
    assert(b + Seq::<u8>::empty() =~= b);
    vstd::arithmetic::power2::lemma2_to64();
    assert(b.subrange(24, 28) =~= le_bytes(n as nat, 4));
    crate::bit_stuffer2::lemma_le_bytes_value(n as nat, 4, b, 24);
    assert(b[28] == 0u8);
    assert(b[29] == m);
    assert(b.subrange(32, b.len() as int) =~= body);
    let r = Seq::new(data.len(), |i: int| vstd::wrapping::u8_specs::wrapping_add(v[i] as u8, b[29]));
    assert forall|i: int| 0 <= i < data.len() implies #[trigger] r[i] == data[i] by {
        assert(m <= data[i]);
    }
    assert(r =~= data);
}

proof fn lemma_count_has_occurrence(d: Seq<u8>, v: int, k: int)
    requires
        0 <= k <= d.len(),
        crate::huffman::byte_count(d, v, k) > 0,
    ensures
        exists|i: int| 0 <= i < k && d[i] == v,
    decreases k,
{
    if d[k - 1] != v {
        lemma_count_has_occurrence(d, v, k - 1);
    }
}

/// The largest byte present bounds every byte and occurs among them.
proof fn lemma_max_is_largest(d: Seq<u8>)
    requires
        0 < d.len() <= i32::MAX,
    ensures
        forall|i: int| 0 <= i < d.len() ==> #[trigger] d[i] <= last_present(byte_histogram(d), 255),
        exists|i: int| 0 <= i < d.len() && d[i] == last_present(byte_histogram(d), 255),
{
    let h = byte_histogram(d);
    assert forall|i: int| 0 <= i < d.len() implies #[trigger] d[i] <= last_present(h, 255) by {
        let v = d[i] as int;
        lemma_count_occurs(d, v, i, d.len() as int);
        lemma_count_bound(d, v, d.len() as int);
        assert(h[v] != 0);
        lemma_last_present(h, 255, v);
    }
    let v0 = d[0] as int;
    lemma_count_first(d, v0, d.len() as int);
    lemma_count_bound(d, v0, d.len() as int);
    assert(h[v0] != 0);
    lemma_last_present(h, 255, v0);
    let top = last_present(h, 255);
    assert(h[top] != 0);
    lemma_count_nonneg(d, top, d.len() as int);
    lemma_count_has_occurrence(d, top, d.len() as int);
}

/// The bit-stuffed flag byte blob of non-empty bytes is as long as the encoder computed.
pub proof fn lemma_flag_blob_size(data: Seq<u8>)
    requires
        0 < data.len() <= i32::MAX,
    ensures
        stuffed_flag_blob(data).len() == 32 + bit_stuff_size(data),
{
    let h = byte_histogram(data);
    let m = first_present(h, 0) as u8;
    let top = last_present(h, 255);
    let v = less_min(data, m);
    let n = data.len() as u32;
    lemma_present_order(data);
    lemma_min_is_smallest(data);
    lemma_max_is_largest(data);
    assert forall|i: int| 0 <= i < v.len() implies #[trigger] v[i] <= (top - m) as u32 by {
        assert(m <= data[i]);
    }
    crate::bit_stuffer2::lemma_seq_max_le(v, (top - m) as u32);
    let j = choose|i: int| 0 <= i < data.len() && data[i] == top;
    crate::bit_stuffer2::lemma_seq_max_bound(v, j);
    assert(seq_max(v) == top - m);
    crate::bit_stuffer2::lemma_simple_encoding_len(v);
    let body = simple_encoding(v);
    let rest = le_bytes(n as nat, 4) + seq![method_code(CompressionMethod::BitStuff), m] + le_bytes(0, 2)
        + body;
    let tail = le_bytes((24 + rest.len()) as nat, 8) + rest;
    crate::bit_stuffer2::lemma_le_bytes_len(n as nat, 4);
    crate::bit_stuffer2::lemma_le_bytes_len(0, 2);
    crate::bit_stuffer2::lemma_le_bytes_len(crate::blob::K_CURR_VERSION as nat, 2);
    crate::bit_stuffer2::lemma_le_bytes_len(crate::common::fletcher32(tail) as nat, 4);
    crate::bit_stuffer2::lemma_le_bytes_len((24 + rest.len()) as nat, 8);
}

/// The Huffman-coded flag byte blob that a new encoder writes is as long as the
/// size it computed.
pub proof fn lemma_flag_huffman_blob_size(data: Seq<u8>)
    requires
        0 < data.len() <= i32::MAX,
        huffman_try(Seq::empty(), data) is Some,
        huffman_bytes(data) is Some,
    ensures
        flag_blob(CompressionMethod::HuffmanCodec, 0, data, huffman_bytes(data).unwrap()).len() == 32
            + huffman_try(Seq::empty(), data).unwrap(),
{
    let h = byte_histogram(data);
    let t = crate::huffman::huffman_table(Seq::empty(), h);
    crate::huffman::lemma_huffman_size_exact(Seq::empty(), data);
    let body = huffman_bytes(data).unwrap();
    assert(body == code_table_bytes(t).unwrap() + words_le(packed_codes(t, data)));
    let n = data.len() as u32;
    let rest = le_bytes(n as nat, 4) + seq![method_code(CompressionMethod::HuffmanCodec), 0u8] + le_bytes(
        0,
        2,
    ) + body;
    let tail = le_bytes((24 + rest.len()) as nat, 8) + rest;
    crate::bit_stuffer2::lemma_le_bytes_len(n as nat, 4);
    crate::bit_stuffer2::lemma_le_bytes_len(0, 2);
    crate::bit_stuffer2::lemma_le_bytes_len(crate::blob::K_CURR_VERSION as nat, 2);
    crate::bit_stuffer2::lemma_le_bytes_len(crate::common::fletcher32(tail) as nat, 4);
    crate::bit_stuffer2::lemma_le_bytes_len((24 + rest.len()) as nat, 8);
}

/// A flag byte blob, whatever its method and body, is a whole blob with a
/// matching checksum that records the number of bytes.
pub proof fn lemma_flag_frame(method: CompressionMethod, min: u8, data: Seq<u8>, body: Seq<u8>)
    requires
        data.len() <= u32::MAX,
        flag_blob(method, min, data, body).len() <= u32::MAX,
    ensures
        checked_blob_size(flag_blob(method, min, data, body), flag_key()) == Some(
            flag_blob(method, min, data, body).len(),
        ),
        flag_count(flag_blob(method, min, data, body)) == data.len(),
        flag_blob(method, min, data, body).len() >= 32,
{
    let n = data.len() as u32;
    let rest = le_bytes(n as nat, 4) + seq![method_code(method), min] + le_bytes(0, 2) + body;
    let b = seal(flag_key(), rest);
    let tail = le_bytes((24 + rest.len()) as nat, 8) + rest;
    crate::bit_stuffer2::lemma_le_bytes_len(n as nat, 4);
    crate::bit_stuffer2::lemma_le_bytes_len(0, 2);
    crate::bit_stuffer2::lemma_le_bytes_len(crate::blob::K_CURR_VERSION as nat, 2);
    crate::bit_stuffer2::lemma_le_bytes_len(crate::common::fletcher32(tail) as nat, 4);
    crate::bit_stuffer2::lemma_le_bytes_len((24 + rest.len()) as nat, 8);
    crate::blob::lemma_seal_checks(flag_key(), rest, Seq::empty());
    assert(b + Seq::<u8>::empty() =~= b);
    vstd::arithmetic::power2::lemma2_to64();
    assert(b.subrange(24, 28) =~= le_bytes(n as nat, 4));
    crate::bit_stuffer2::lemma_le_bytes_value(n as nat, 4, b, 24);
}


/// The flag byte blob that a new encoder writes for non-empty bytes: Huffman
/// coded where that is smaller, bit stuffed otherwise.
pub open spec fn flag_encoding(data: Seq<u8>) -> Seq<u8> {
    if chooses_huffman(Seq::empty(), data) {
        flag_blob(CompressionMethod::HuffmanCodec, 0, data, huffman_bytes(data).unwrap())
    } else {
        stuffed_flag_blob(data)
    }
}

/// Decoding the flag byte blob that a new encoder writes for non-empty bytes,
/// Huffman coded or bit stuffed, gives back the bytes: flag byte compression
/// is lossless.
#[verifier::rlimit(40)]
pub proof fn lemma_flag_lossless(data: Seq<u8>)
    requires
        0 < data.len() <= i32::MAX,
    ensures
        flag_decoding(flag_encoding(data)) == Some(data),
        checked_blob_size(flag_encoding(data), flag_key()) == Some(flag_encoding(data).len()),
        flag_count(flag_encoding(data)) == data.len(),
{
    if !chooses_huffman(Seq::empty(), data) {
        lemma_flag_roundtrip(data);
    } else {
        let h = byte_histogram(data);
        assert(codes_computable(h) && lengths_fit(h));
        crate::huffman::lemma_fresh_coder_codes(data);
        let body = huffman_bytes(data).unwrap();
        lemma_flag_huffman_blob_size(data);
        lemma_present_order(data);
        let n = data.len() as u32;
        lemma_encoded_len_small(n, (last_present(h, 255) - first_present(h, 0)) as u8 as u32);
        let b = flag_blob(CompressionMethod::HuffmanCodec, 0, data, body);
        assert(b.len() <= u32::MAX);
        lemma_flag_frame(CompressionMethod::HuffmanCodec, 0, data, body);
        crate::bit_stuffer2::lemma_le_bytes_len(n as nat, 4);
        crate::bit_stuffer2::lemma_le_bytes_len(0, 2);
        let rest = le_bytes(n as nat, 4) + seq![method_code(CompressionMethod::HuffmanCodec), 0u8] + le_bytes(
            0,
            2,
        ) + body;
        let tail = le_bytes((24 + rest.len()) as nat, 8) + rest;
        crate::bit_stuffer2::lemma_le_bytes_len(crate::blob::K_CURR_VERSION as nat, 2);
        crate::bit_stuffer2::lemma_le_bytes_len(crate::common::fletcher32(tail) as nat, 4);
        crate::bit_stuffer2::lemma_le_bytes_len((24 + rest.len()) as nat, 8);
        assert(b[28] == 1u8);
        assert(b.subrange(32, b.len() as int) =~= body);
        crate::huffman::lemma_huffman_roundtrip(data);
    }
}

} // verus!
