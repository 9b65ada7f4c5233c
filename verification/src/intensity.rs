//! Intensity compression implementation
//!
//! After the 16-byte top header: the blob size (8 bytes), the number of values
//! (4 bytes), the upscale factor (2 bytes), the bits per value (1 byte) and a
//! reserved byte; then the values, divided by the upscale factor: as 16-bit
//! numbers, as bytes (8 bits per value and no upscaling), or bit stuffed.
use vstd::prelude::*;
use crate::bit_math::{le_value, le_bytes};
use crate::bit_mask::BitMask;
use crate::bit_stuffer2::{BitStuffer2, bit_width, simple_encoding, simple_encoded_len,
    simple_decoding, simple_decoding_error};
use crate::blob::{HEADER_SIZE, seal, seal_blob, check_blob, checked_blob_size, checked_blob_error,
    blob_size_result, blob_size_error, blob_size_field, read_u16, read_u32,
    push_u16, push_u32, get_blob_size};
use crate::error::{LepccError, Result, failed, wrong_param, is_failed, is_wrong_param, is_too_small};
use crate::types::Byte;

verus! {

/// The file key of intensity blobs: `Intensity ` in ASCII.
pub open spec fn intensity_key() -> Seq<u8> {
    seq![0x49u8, 0x6e, 0x74, 0x65, 0x6e, 0x73, 0x69, 0x74, 0x79, 0x20]
}

fn file_key() -> (k: [u8; 10])
    ensures
        k@ == intensity_key(),
{
    let k: [u8; 10] = [0x49u8, 0x6e, 0x74, 0x65, 0x6e, 0x73, 0x69, 0x74, 0x79, 0x20];
    assert(k@ =~= intensity_key());
    k
}

/// The largest value (0 for no values).
pub open spec fn max16(s: Seq<u16>) -> u16
    decreases s.len(),
{
    if s.len() == 0 {
        0
    } else if s.last() > max16(s.drop_last()) {
        s.last()
    } else {
        max16(s.drop_last())
    }
}

/// `v` is one of the values.
pub open spec fn occurs(x: Seq<u16>, v: int) -> bool {
    exists|i: int| 0 <= i < x.len() && x[i] == v
}

/// `v` is 0 or one of the values.
pub open spec fn occurs_or_zero(x: Seq<u16>, v: int) -> bool {
    v == 0 || occurs(x, v)
}

/// `d` is the smallest positive difference between a value and a smaller value or 0.
pub open spec fn is_min_gap(x: Seq<u16>, d: int) -> bool {
    &&& exists|a: int, b: int| occurs_or_zero(x, a) && occurs(x, b) && a < b && b - a == d
    &&& forall|a: int, b: int|
        #![trigger occurs_or_zero(x, a), occurs(x, b)]
        occurs_or_zero(x, a) && occurs(x, b) && a < b ==> b - a >= d
}

/// Every value is a multiple of `d`.
pub open spec fn divides_all(x: Seq<u16>, d: int) -> bool {
    forall|i: int| 0 <= i < x.len() ==> #[trigger] (x[i] as int % d) == 0
}

/// `r` is the upscale factor of the values: the smallest gap between values (0
/// counted as a value) when it is above 1 and divides every value, else 1.
pub open spec fn upscale_factor_is(x: Seq<u16>, r: int) -> bool {
    &&& r >= 1
    &&& (r > 1 <==> exists|d: int| d > 1 && is_min_gap(x, d) && divides_all(x, d))
    &&& (r > 1 ==> is_min_gap(x, r) && divides_all(x, r))
}

/// The values, each as two little-endian bytes.
pub open spec fn u16_bytes(x: Seq<u16>) -> Seq<u8> {
    Seq::new(
        2 * x.len(),
        |j: int|
            if j % 2 == 0 {
                (x[j / 2] % 256) as u8
            } else {
                (x[j / 2] / 256) as u8
            },
    )
}

/// The values divided by the upscale factor, as the encoder stores them.
pub open spec fn scaled_values(x: Seq<u16>, scale: i32) -> Seq<u32> {
    if scale == 1 {
        Seq::new(x.len(), |i: int| x[i] as u32)
    } else {
        Seq::new(x.len(), |i: int| (x[i] / (scale as u16)) as u32)
    }
}

/// The bytes that hold the values for a given upscale factor and bits per value.
pub open spec fn intensity_payload(x: Seq<u16>, scale: i32, bpp: i32) -> Seq<u8> {
    if bpp == 16 {
        u16_bytes(x)
    } else if bpp == 8 && scale == 1 {
        Seq::new(x.len(), |i: int| x[i] as u8)
    } else {
        simple_encoding(scaled_values(x, scale))
    }
}

/// The intensity blob of `x` for a given upscale factor and bits per value.
pub open spec fn intensity_encoding(x: Seq<u16>, scale: i32, bpp: i32) -> Seq<u8> {
    seal(
        intensity_key(),
        le_bytes(x.len() as u32 as nat, 4) + le_bytes(scale as u16 as nat, 2) + seq![
            bpp as u8,
            0u8,
        ] + intensity_payload(x, scale, bpp),
    )
}

/// Bits per value that the encoder picks: the width of the largest value after scaling.
pub open spec fn intensity_bpp(x: Seq<u16>, scale: int) -> nat {
    bit_width((max16(x) as int / scale) as nat)
}

/// Bytes the encoder reports for `x`.
pub open spec fn intensity_num_bytes(x: Seq<u16>, scale: int) -> int {
    let bpp = intensity_bpp(x, scale);
    if bpp == 16 || (bpp == 8 && scale == 1) {
        32 + (x.len() * (bpp / 8)) as int
    } else {
        32 + simple_encoded_len(x.len() as u32, (max16(x) as int / scale) as u32) as int
    }
}

// --- decoding -------------------------------------------------------------
/// Number of values recorded in the header.
pub open spec fn header_count(d: Seq<u8>) -> nat {
    le_value(d, 24, 4)
}

/// Upscale factor recorded in the header.
pub open spec fn header_scale(d: Seq<u8>) -> nat {
    le_value(d, 28, 2)
}

/// Bits per value recorded in the header.
pub open spec fn header_bpp(d: Seq<u8>) -> u8 {
    d[30]
}

/// The first `k` decoded values, scaled back up, stay within 16 bits.
pub open spec fn scales_fit(v: Seq<u32>, k: nat, scale: nat) -> bool {
    forall|i: int| 0 <= i < k ==> (#[trigger] v[i] as u16) * scale <= u16::MAX
}

/// The values decoded from a blob whose frame checked out with size `n`.
pub open spec fn intensity_values(d: Seq<u8>, n: nat) -> Option<Seq<u16>> {
    let count = header_count(d);
    let scale = header_scale(d);
    let bpp = header_bpp(d);
    if bpp == 16 {
        let k = if count < (d.len() - 32) / 2 {
            count
        } else {
            ((d.len() - 32) / 2) as nat
        };
        Some(Seq::new(k, |i: int| le_value(d, 32 + 2 * i, 2) as u16))
    } else if bpp == 8 && scale == 1 {
        let k = if count < d.len() - 32 {
            count
        } else {
            (d.len() - 32) as nat
        };
        Some(Seq::new(k, |i: int| d[32 + i] as u16))
    } else if n < 32 {
        None
    } else {
        match simple_decoding(d.subrange(32, n as int)) {
            None => None,
            Some(v) => {
                let k = if count < v.len() {
                    count
                } else {
                    v.len()
                };
                if scales_fit(v, k, scale) {
                    Some(Seq::new(k, |i: int| ((v[i] as u16) * (scale as u16)) as u16))
                } else {
                    None
                }
            },
        }
    }
}

/// The values decoded from an intensity blob, or `None` when decoding fails.
pub open spec fn intensity_decoding(d: Seq<u8>) -> Option<Seq<u16>> {
    match checked_blob_size(d, intensity_key()) {
        None => None,
        Some(n) => if d.len() < 32 || header_scale(d) < 1 || header_bpp(d) > 16 {
            None
        } else {
            intensity_values(d, n)
        },
    }
}

/// The error reported when decoding an intensity blob fails.
pub open spec fn intensity_decoding_error(d: Seq<u8>, e: LepccError) -> bool {
    match checked_blob_size(d, intensity_key()) {
        None => checked_blob_error(d, intensity_key(), e),
        Some(n) => if d.len() < 32 {
            is_too_small(e, 32, d.len() as int)
        } else if header_scale(d) < 1 || header_bpp(d) > 16 {
            is_failed(e, "Invalid header values"@)
        } else if header_bpp(d) == 16 || (header_bpp(d) == 8 && header_scale(d) == 1) {
            false
        } else if n < 32 {
            is_failed(e, "Invalid blob size"@)
        } else {
            match simple_decoding(d.subrange(32, n as int)) {
                None => simple_decoding_error(d.subrange(32, n as int), e),
                Some(v) => is_failed(e, "Invalid intensity value"@),
            }
        },
    }
}

pub struct IntensityEncoder {
    upscale_factor: i32,
    num_bytes_needed: i64,
    bpp: i32,
}

impl Default for IntensityEncoder {
    fn default() -> (e: Self)
        ensures
            e.scale() == 0 && e.bits_per_value() == 0 && e.num_bytes() == 0,
    {
        Self::new()
    }
}

impl IntensityEncoder {
    /// Upscale factor chosen by the last size computation.
    pub closed spec fn scale(self) -> i32 {
        self.upscale_factor
    }

    /// Bits per value chosen by the last size computation.
    pub closed spec fn bits_per_value(self) -> i32 {
        self.bpp
    }

    /// Size computed by the last size computation.
    pub closed spec fn num_bytes(self) -> i64 {
        self.num_bytes_needed
    }

    pub fn new() -> (e: Self)
        ensures
            e.scale() == 0 && e.bits_per_value() == 0 && e.num_bytes() == 0,
    {
        IntensityEncoder { upscale_factor: 0, num_bytes_needed: 0, bpp: 0 }
    }

    /// Compute the number of bytes needed to encode intensity values
    pub fn compute_num_bytes_needed(&mut self, intensities: &[u16]) -> (r: Result<i64>)
        requires
            intensities@.len() * 2 + 64 <= i64::MAX,
            intensities@.len() * 2 + 64 <= usize::MAX,
        ensures
            intensities@.len() == 0 ==> (r matches Err(e) && is_wrong_param(
                e,
                "No intensities provided"@,
            ) && *final(self) == *old(self)),
            intensities@.len() > 0 ==> (r matches Ok(n) && upscale_factor_is(
                intensities@,
                final(self).scale() as int,
            ) && final(self).bits_per_value() == intensity_bpp(intensities@, final(self).scale() as int)
                && n == intensity_num_bytes(intensities@, final(self).scale() as int) && n
                == final(self).num_bytes()),
    {
        if intensities.len() == 0 {
            return Err(wrong_param("No intensities provided"));
        }
        let max_elem = max_u16(intensities);
        // Determine upscale factor if any
        let factor = self.find_upscale_factor(intensities, max_elem);
        proof {
            lemma_upscale_factor_bound(intensities@, factor as int);
        }
        self.upscale_factor = factor;
        let max_elem = max_elem / self.upscale_factor as u16;
        // Determine bpp
        let mut bpp: i32 = 0;
        proof {
            assert(max_elem >> 0u16 == max_elem) by (bit_vector);
            let m32 = max_elem as u32;
            crate::bit_math::lemma_u32_shifts(m32, 0);
            crate::bit_stuffer2::lemma_width_below(m32, 16);
        }
        while bpp < 16 && (max_elem >> (bpp as u16)) > 0
            invariant
                0 <= bpp <= 16,
                bpp + bit_width((max_elem >> (bpp as u16)) as nat) == bit_width(max_elem as nat),
                bit_width(max_elem as nat) <= 16,
            decreases 16 - bpp,
        {
            let ghost b = bpp as u16;
            proof {
                let v = max_elem >> b;
                assert((b < 16 ==> (max_elem >> b) >> 1u16 == max_elem >> ((b + 1) as u16)) && v >> 1u16
                    == v / 2) by (bit_vector)
                    requires
                        v == max_elem >> b,
                ;
            }
            bpp = bpp + 1;
        }
        self.bpp = bpp;
        let header_size: i64 = HEADER_SIZE as i64;
        let n = intensities.len();
        if self.bpp == 16 || (self.bpp == 8 && self.upscale_factor == 1) {
            assert(n as u64 * (bpp as u64 / 8) <= n * 2) by (nonlinear_arith)
                requires
                    bpp == 8 || bpp == 16,
            ;
            self.num_bytes_needed = header_size + (n as u64 * (self.bpp as u64 / 8)) as i64;
        } else {
            proof {
                let c = n as u32;
                let w = bit_width(max_elem as nat);
                assert(c as nat * w <= n * 16) by (nonlinear_arith)
                    requires
                        c <= n,
                        w <= 16,
                ;
            }
            self.num_bytes_needed = header_size + BitStuffer2::compute_num_bytes_needed_simple(
                n as u32,
                max_elem as u32,
            ) as i64;
        }
        Ok(self.num_bytes_needed)
    }

    /// Encode intensity values
    pub fn encode(&self, intensities: &[u16]) -> (r: Result<Vec<Byte>>)
        requires
            self.bits_per_value() == 16 || self.scale() == 1 || self.scale() as u16 != 0,
            intensities@.len() * 2 + 64 <= i64::MAX,
        ensures
            r matches Ok(v) && v@ == intensity_encoding(
                intensities@,
                self.scale(),
                self.bits_per_value(),
            ),
    {
        let mut rest: Vec<u8> = Vec::new();
        push_u32(&mut rest, intensities.len() as u32);
        push_u16(&mut rest, self.upscale_factor as u16);
        rest.push(self.bpp as u8);
        rest.push(0u8);
        let ghost header = rest@;
        assert(header =~= le_bytes(intensities@.len() as u32 as nat, 4) + le_bytes(
            self.upscale_factor as u16 as nat,
            2,
        ) + seq![self.bpp as u8, 0u8]);
        let n = intensities.len();
        // Encode intensity data
        if self.bpp == 16 {
            let mut i: usize = 0;
            while i < n
                invariant
                    i <= n,
                    n == intensities@.len(),
                    rest@ == header + u16_bytes(intensities@).subrange(0, 2 * i),
                decreases n - i,
            {
                push_u16(&mut rest, intensities[i]);
                proof {
                    let v = intensities@[i as int];
                    reveal_with_fuel(le_bytes, 3);
                    assert(le_bytes(v as nat, 2) =~= seq![(v % 256) as u8, (v / 256) as u8]);
                }
                i = i + 1;
                proof {
                    assert(rest@ =~= header + u16_bytes(intensities@).subrange(0, 2 * i));
                }
            }
            proof {
                assert(u16_bytes(intensities@).subrange(0, 2 * n) =~= u16_bytes(intensities@));
            }
        } else if self.bpp == 8 && self.upscale_factor == 1 {
            // Common case: 8-bit, no upscaling
            let mut i: usize = 0;
            while i < n
                invariant
                    i <= n,
                    n == intensities@.len(),
                    rest@ == header + Seq::new(i as nat, |j: int| intensities@[j] as u8),
                decreases n - i,
            {
                rest.push(intensities[i] as u8);
                i = i + 1;
                proof {
                    assert(rest@ =~= header + Seq::new(i as nat, |j: int| intensities@[j] as u8));
                }
            }
        } else {
            let mut data_vec: Vec<u32> = Vec::new();
            let mut i: usize = 0;
            while i < n
                invariant
                    i <= n,
                    n == intensities@.len(),
                    self.bpp == 16 || self.upscale_factor == 1 || self.upscale_factor as u16 != 0,
                    self.bpp != 16,
                    data_vec@ == scaled_values(intensities@, self.upscale_factor).subrange(0, i as int),
                decreases n - i,
            {
                if self.upscale_factor == 1 {
                    data_vec.push(intensities[i] as u32);
                } else {
                    data_vec.push((intensities[i] / self.upscale_factor as u16) as u32);
                }
                i = i + 1;
                proof {
                    assert(data_vec@ =~= scaled_values(intensities@, self.upscale_factor).subrange(
                        0,
                        i as int,
                    ));
                }
            }
            proof {
                assert(data_vec@ =~= scaled_values(intensities@, self.upscale_factor));
            }
            let encoded = BitStuffer2::encode_simple(data_vec.as_slice());
            let encoded = match encoded {
                Ok(v) => v,
                Err(e) => {
                    proof {
                        lemma_scaled_fit(intensities@, self.upscale_factor);
                    }
                    return Err(e);
                },
            };
            let mut j: usize = 0;
            while j < encoded.len()
                invariant
                    j <= encoded@.len(),
                    rest@ == header + encoded@.subrange(0, j as int),
                decreases encoded@.len() - j,
            {
                rest.push(encoded[j]);
                j = j + 1;
                proof {
                    assert(rest@ =~= header + encoded@.subrange(0, j as int));
                }
            }
            proof {
                assert(encoded@.subrange(0, encoded@.len() as int) =~= encoded@);
            }
        }
        proof {
            assert(rest@ =~= header + intensity_payload(
                intensities@,
                self.upscale_factor,
                self.bpp,
            ));
            assert(rest@.len() + 24 <= i64::MAX) by {
                lemma_payload_len(intensities@, self.upscale_factor, self.bpp);
                crate::bit_stuffer2::lemma_le_bytes_len(n as u32 as nat, 4);
                crate::bit_stuffer2::lemma_le_bytes_len(self.upscale_factor as u16 as nat, 2);
            }
        }
        let key = file_key();
        Ok(seal_blob(&key, rest.as_slice()))
    }

    /// The upscale factor of the values: the smallest gap between the values
    /// (0 counted as a value) when it is above 1 and divides every value, else 1.
    pub fn find_upscale_factor(&self, intensities: &[u16], max_elem: u16) -> (r: i32)
        requires
            max_elem == max16(intensities@),
        ensures
            upscale_factor_is(intensities@, r as int),
    {
        if max_elem == 0 {
            proof {
                lemma_no_gap_when_all_zero(intensities@);
            }
            return 1;
        }
        let mut histo_mask = BitMask::with_size(1 + max_elem as usize, 1);
        histo_mask.set_all_invalid();
        let mut idx: usize = 0;
        while idx < intensities.len()
            invariant
                idx <= intensities@.len(),
                histo_mask.wf(),
                histo_mask.num_bits() == 1 + max_elem,
                forall|j: int| #[trigger]
                    histo_mask.valid(j) <==> (0 <= j <= max_elem && exists|i: int|
                        0 <= i < idx && intensities@[i] == j),
            decreases intensities@.len() - idx,
        {
            histo_mask.set_valid(intensities[idx] as usize);
            proof {
                assert forall|j: int| #[trigger]
                    histo_mask.valid(j) <==> (0 <= j <= max_elem && exists|i: int|
                        0 <= i < idx + 1 && intensities@[i] == j) by {
                    if histo_mask.valid(j) && j != intensities@[idx as int] {
                        let i = choose|i: int| 0 <= i < idx && intensities@[i] == j;
                    }
                    if 0 <= j <= max_elem && exists|i: int| 0 <= i < idx + 1 && intensities@[i] == j {
                        let i = choose|i: int| 0 <= i < idx + 1 && intensities@[i] == j;
                        if i < idx {
                        }
                    }
                }
            }
            idx = idx + 1;
        }
        proof {
            lemma_max_bounds(intensities@);
            assert forall|j: int| #[trigger] histo_mask.valid(j) == occurs(intensities@, j) by {
                if occurs(intensities@, j) {
                    let i = choose|i: int| 0 <= i < intensities@.len() && intensities@[i] == j;
                }
            }
        }
        let ghost x = intensities@;
        let mut k0 = histo_mask.next_valid_bit(0);
        if k0 < 0 {
            proof {
                lemma_max_occurs(x);
                assert(histo_mask.valid(max_elem as int));
            }
            return 1;
        }
        let mut k1: i64 = k0;
        let mut min_delta: i64 = if k0 > 0 {
            k0
        } else {
            max_elem as i64
        };
        proof {
            assert forall|a: int, b: int|
                occurs_or_zero(x, a) && occurs(x, b) && a < b && b <= k0 implies b - a >= min_delta by {
                assert(histo_mask.valid(b));
                assert(b >= k0);
                if a != 0 {
                    assert(histo_mask.valid(a));
                }
            }
            if k0 > 0 {
                assert(occurs_or_zero(x, 0) && occurs(x, k0 as int));
            }
        }
        // First pass: find min delta
        loop
            invariant
                histo_mask.wf(),
                histo_mask.num_bits() == 1 + max_elem,
                x == intensities@,
                max_elem == max16(x),
                max_elem > 0,
                forall|j: int| #[trigger] histo_mask.valid(j) == occurs(x, j),
                0 <= k0 <= max_elem,
                occurs(x, k0 as int),
                1 <= min_delta <= max_elem,
                forall|a: int, b: int|
                    #![trigger occurs_or_zero(x, a), occurs(x, b)]
                    occurs_or_zero(x, a) && occurs(x, b) && a < b && b <= k0 ==> b - a >= min_delta,
                (exists|a: int, b: int|
                    occurs_or_zero(x, a) && occurs(x, b) && a < b && b <= k0 && b - a == min_delta)
                    || (k0 == 0 && min_delta == max_elem),
            ensures
                occurs(x, k0 as int),
                forall|j: int| k0 < j ==> !occurs(x, j),
                1 <= min_delta <= max_elem,
                forall|a: int, b: int|
                    #![trigger occurs_or_zero(x, a), occurs(x, b)]
                    occurs_or_zero(x, a) && occurs(x, b) && a < b && b <= k0 ==> b - a >= min_delta,
                (exists|a: int, b: int|
                    occurs_or_zero(x, a) && occurs(x, b) && a < b && b <= k0 && b - a == min_delta)
                    || (k0 == 0 && min_delta == max_elem),
            decreases max_elem - k0,
        {
            let next = histo_mask.next_valid_bit(k0 + 1);
            if next < 0 {
                proof {
                    assert forall|j: int| k0 < j implies !occurs(x, j) by {
                        if occurs(x, j) {
                            assert(histo_mask.valid(j));
                        }
                    }
                }
                break;
            }
            k1 = next;
            let ghost old_min = min_delta;
            let ghost old_k0 = k0;
            if k1 - k0 < min_delta {
                min_delta = k1 - k0;
            }
            proof {
                assert(histo_mask.valid(k1 as int));
                assert forall|a: int, b: int|
                    occurs_or_zero(x, a) && occurs(x, b) && a < b && b <= k1 implies b - a
                    >= min_delta by {
                    if b > old_k0 {
                        assert(histo_mask.valid(b));
                        if b < k1 {
                            assert(!histo_mask.valid(b));
                        }
                        if a > old_k0 {
                            assert(histo_mask.valid(a));
                        }
                    }
                }
                if min_delta == k1 - old_k0 {
                    assert(occurs_or_zero(x, old_k0 as int) && occurs(x, k1 as int) && old_k0 < k1
                        && k1 <= k1 && k1 - old_k0 == min_delta);
                } else if exists|a: int, b: int|
                    occurs_or_zero(x, a) && occurs(x, b) && a < b && b <= old_k0 && b - a == old_min {
                    let (wa, wb) = choose|a: int, b: int|
                        occurs_or_zero(x, a) && occurs(x, b) && a < b && b <= old_k0 && b - a == old_min;
                    assert(occurs_or_zero(x, wa) && occurs(x, wb) && wa < wb && wb <= k1 && wb - wa
                        == min_delta);
                } else {
                    assert(old_k0 == 0 && old_min == max_elem);
                    assert(k1 - 0 <= max_elem);
                    assert(occurs_or_zero(x, 0) && occurs(x, k1 as int) && 0 < k1 && k1 <= k1 && k1 - 0
                        == min_delta);
                }
            }
            k0 = k1;
            if min_delta <= 1 {
                proof {
                    lemma_no_large_gap(x, min_delta as int, k0 as int);

                }
                return 1;
            }
        }
        proof {
            lemma_max_occurs(x);
            if k0 == 0 {
                assert(occurs(x, max_elem as int));
                assert(false);
            }
            assert forall|a: int, b: int|
                #![trigger occurs_or_zero(x, a), occurs(x, b)]
                occurs_or_zero(x, a) && occurs(x, b) && a < b implies b - a >= min_delta by {
                if b > k0 {
                    assert(!occurs(x, b));
                }
            }
            assert(is_min_gap(x, min_delta as int));
        }
        // Second pass: check all entries are multiples of min delta
        k0 = -1;
        loop
            invariant
                histo_mask.wf(),
                histo_mask.num_bits() == 1 + max_elem,
                x == intensities@,
                forall|j: int| #[trigger] histo_mask.valid(j) == occurs(x, j),
                -1 <= k0 <= max_elem,
                1 <= min_delta <= max_elem,
                is_min_gap(x, min_delta as int),
                forall|j: int| 0 <= j <= k0 && occurs(x, j) ==> j % (min_delta as int) == 0,
            ensures
                forall|j: int| 0 <= j && occurs(x, j) ==> j % (min_delta as int) == 0,
            decreases max_elem - k0,
        {
            let next = histo_mask.next_valid_bit(k0 + 1);
            if next < 0 {
                proof {
                    assert forall|j: int| 0 <= j && occurs(x, j) implies j % (min_delta as int) == 0 by {
                        if j > k0 {
                            assert(histo_mask.valid(j));
                        }
                    }
                }
                break;
            }
            k1 = next;
            let ghost prev_k0 = k0;
            k0 = k1;
            if (k1 % min_delta) != 0 {
                proof {
                    assert(histo_mask.valid(k1 as int));
                    lemma_min_gap_unique(x, min_delta as int);
                    assert forall|d: int| !(d > 1 && is_min_gap(x, d) && divides_all(x, d)) by {
                        if d > 1 && is_min_gap(x, d) && divides_all(x, d) {
                            lemma_min_gap_same(x, d, min_delta as int);
                            let i = choose|i: int| 0 <= i < x.len() && x[i] == k1;
                            assert(x[i] as int % d == 0);
                            assert(k1 as int % min_delta as int != 0);
                        }
                    }
                }
                return 1;
            }
            proof {
                assert forall|j: int| 0 <= j <= k0 && occurs(x, j) implies j % (min_delta as int) == 0 by {
                    if j > prev_k0 && j < k1 {
                        assert(histo_mask.valid(j));
                    }
                }
            }
        }
        proof {
            assert(divides_all(x, min_delta as int)) by {
                assert forall|i: int| 0 <= i < x.len() implies #[trigger] (x[i] as int % (min_delta as int)) == 0 by {
                    assert(occurs(x, x[i] as int));
                }
            }
            if min_delta == 1 {
                assert forall|d: int| !(d > 1 && is_min_gap(x, d) && divides_all(x, d)) by {
                    if d > 1 && is_min_gap(x, d) {
                        lemma_min_gap_same(x, d, min_delta as int);
                    }
                }
            }
        }
        min_delta as i32
    }
}

pub struct IntensityDecoder;

impl IntensityDecoder {
    /// The blob size recorded in the header of an intensity blob.
    pub fn get_blob_size(data: &[Byte]) -> (r: Result<u32>)
        ensures
            match r {
                Ok(n) => blob_size_result(data@, intensity_key()) == Some(n as nat),
                Err(e) => blob_size_result(data@, intensity_key()) is None && blob_size_error(
                    data@,
                    intensity_key(),
                    e,
                ),
            },
    {
        let key = file_key();
        get_blob_size(data, &key)
    }

    /// The number of values recorded in the header.
    pub fn get_num_points(data: &[Byte]) -> (r: Result<u32>)
        ensures
            match r {
                Ok(n) => data@.len() >= 32 && n == header_count(data@),
                Err(e) => data@.len() < 32 && is_too_small(e, 32, data@.len() as int),
            },
    {
        if data.len() < HEADER_SIZE {
            return Err(LepccError::BufferTooSmall { needed: HEADER_SIZE, provided: data.len() });
        }
        Ok(read_u32(data, 24))
    }

    /// Decode intensity values
    pub fn decode(data: &[Byte]) -> (r: Result<Vec<u16>>)
        ensures
            match r {
                Ok(v) => intensity_decoding(data@) == Some(v@),
                Err(e) => intensity_decoding(data@) is None && intensity_decoding_error(data@, e),
            },
    {
        let key = file_key();
        let blob_size = check_blob(data, &key)?;
        if data.len() < HEADER_SIZE {
            return Err(LepccError::BufferTooSmall { needed: HEADER_SIZE, provided: data.len() });
        }
        let num_elem = read_u32(data, 24) as usize;
        let scale = read_u16(data, 28);
        let bpp = data[30];
        if scale < 1 || bpp > 16 {
            return Err(failed("Invalid header values"));
        }
        let mut result: Vec<u16> = Vec::new();
        let data_start = HEADER_SIZE;
        if bpp == 16 {
            let avail = (data.len() - data_start) / 2;
            let count = if num_elem < avail {
                num_elem
            } else {
                avail
            };
            let mut i: usize = 0;
            while i < count
                invariant
                    i <= count,
                    count <= (data@.len() - 32) / 2,
                    count <= (data.len() - 32) / 2,
                    data@.len() >= 32,
                    data_start == 32,
                    result@ == Seq::new(i as nat, |j: int| le_value(data@, 32 + 2 * j, 2) as u16),
                decreases count - i,
            {
                let idx = data_start + i * 2;
                result.push(read_u16(data, idx));
                i = i + 1;
                proof {
                    assert(result@ =~= Seq::new(i as nat, |j: int| le_value(data@, 32 + 2 * j, 2) as u16));
                }
            }
        } else if bpp == 8 && scale == 1 {
            let avail = data.len() - data_start;
            let count = if num_elem < avail {
                num_elem
            } else {
                avail
            };
            let mut i: usize = 0;
            while i < count
                invariant
                    i <= count,
                    count <= data@.len() - 32,
                    count <= data.len() - 32,
                    data@.len() >= 32,
                    data_start == 32,
                    result@ == Seq::new(i as nat, |j: int| data@[32 + j] as u16),
                decreases count - i,
            {
                result.push(data[data_start + i] as u16);
                i = i + 1;
                proof {
                    assert(result@ =~= Seq::new(i as nat, |j: int| data@[32 + j] as u16));
                }
            }
        } else {
            if blob_size < data_start {
                return Err(failed("Invalid blob size"));
            }
            let data_slice = &data[data_start..blob_size];
            let decoded_u32 = BitStuffer2::decode(data_slice)?;
            let count = if num_elem < decoded_u32.len() {
                num_elem
            } else {
                decoded_u32.len()
            };
            let ghost k = count as nat;
            let mut i: usize = 0;
            while i < count
                invariant
                    i <= count,
                    count <= decoded_u32@.len(),
                    count <= header_count(data@),
                    scale == header_scale(data@),
                    scales_fit(decoded_u32@, i as nat, scale as nat),
                    k == count,
                    checked_blob_size(data@, intensity_key()) == Some(blob_size as nat),
                    32 <= blob_size <= data@.len(),
                    header_bpp(data@) == bpp,
                    bpp != 16 && !(bpp == 8 && scale == 1),
                    1 <= scale,
                    bpp <= 16,
                    simple_decoding(data@.subrange(32, blob_size as int)) == Some(decoded_u32@),
                    count == (if header_count(data@) < decoded_u32@.len() {
                        header_count(data@)
                    } else {
                        decoded_u32@.len()
                    }),
                    result@ == Seq::new(
                        i as nat,
                        |j: int| ((decoded_u32@[j] as u16) * (scale as u16)) as u16,
                    ),
                decreases count - i,
            {
                let val = decoded_u32[i] as u16;
                assert(val as u64 * scale as u64 <= 0xFFFF * 0xFFFF) by (nonlinear_arith)
                    requires
                        val <= 0xFFFF,
                        scale <= 0xFFFF,
                ;
                if val as u64 * scale as u64 > 0xFFFF {
                    proof {
                        assert((decoded_u32@[i as int] as u16) * (scale as nat) > u16::MAX);
                        assert(!scales_fit(decoded_u32@, k, scale as nat));
                    }
                    return Err(failed("Invalid intensity value"));
                }
                result.push(val * scale);
                i = i + 1;
                proof {
                    assert(result@ =~= Seq::new(
                        i as nat,
                        |j: int| ((decoded_u32@[j] as u16) * (scale as u16)) as u16,
                    ));
                }
            }
        }
        Ok(result)
    }
}

/// The largest of the values.
fn max_u16(data: &[u16]) -> (m: u16)
    ensures
        m == max16(data@),
{
    let mut m: u16 = 0;
    let mut i: usize = 0;
    while i < data.len()
        invariant
            i <= data.len(),
            m == max16(data@.subrange(0, i as int)),
        decreases data.len() - i,
    {
        proof {
            assert(data@.subrange(0, i + 1).drop_last() =~= data@.subrange(0, i as int));
        }
        if data[i] > m {
            m = data[i];
        }
        i = i + 1;
    }
    proof {
        assert(data@.subrange(0, data@.len() as int) =~= data@);
    }
    m
}

/// An upscale factor is at most 65535.
pub proof fn lemma_upscale_factor_bound(x: Seq<u16>, r: int)
    requires
        upscale_factor_is(x, r),
    ensures
        1 <= r <= 65535,
{
    if r > 1 {
        let (a, b) = choose|a: int, b: int| occurs_or_zero(x, a) && occurs(x, b) && a < b && b - a == r;
        let i = choose|i: int| 0 <= i < x.len() && x[i] == b;
        if a != 0 {
            let j = choose|j: int| 0 <= j < x.len() && x[j] == a;
        }
    }
}

/// Every value is at most the largest.
pub proof fn lemma_max_bounds(x: Seq<u16>)
    ensures
        forall|i: int| 0 <= i < x.len() ==> #[trigger] x[i] <= max16(x),
    decreases x.len(),
{
    if x.len() > 0 {
        lemma_max_bounds(x.drop_last());
        assert forall|i: int| 0 <= i < x.len() implies #[trigger] x[i] <= max16(x) by {
            if i < x.len() - 1 {
                assert(x[i] == x.drop_last()[i]);
            }
        }
    }
}

/// The largest value is one of the values.
pub proof fn lemma_max_occurs(x: Seq<u16>)
    requires
        x.len() > 0,
    ensures
        occurs(x, max16(x) as int),
    decreases x.len(),
{
    if x.len() > 1 {
        if x.last() <= max16(x.drop_last()) {
            lemma_max_occurs(x.drop_last());
            let i = choose|i: int| 0 <= i < x.drop_last().len() && x.drop_last()[i] == max16(
                x.drop_last(),
            );
            assert(x[i] == max16(x));
        } else {
            assert(x[x.len() - 1] == max16(x));
        }
    } else {
        assert(x.drop_last().len() == 0);
        assert(max16(x.drop_last()) == 0);
        assert(x[0] == max16(x));
    }
}

proof fn lemma_no_gap_when_all_zero(x: Seq<u16>)
    requires
        max16(x) == 0,
    ensures
        upscale_factor_is(x, 1),
{
    lemma_max_bounds(x);
    assert forall|d: int| !(d > 1 && is_min_gap(x, d) && divides_all(x, d)) by {
        if is_min_gap(x, d) {
            let (a, b) = choose|a: int, b: int|
                occurs_or_zero(x, a) && occurs(x, b) && a < b && b - a == d;
            let i = choose|i: int| 0 <= i < x.len() && x[i] == b;
            assert(x[i] <= 0);
        }
    }
}

/// A pair of values `gap` apart rules out any larger smallest gap.
proof fn lemma_no_large_gap(x: Seq<u16>, gap: int, k: int)
    requires
        gap <= 1,
        exists|a: int, b: int| occurs_or_zero(x, a) && occurs(x, b) && a < b && b <= k && b - a == gap,
    ensures
        upscale_factor_is(x, 1),
{
    let (a, b) = choose|a: int, b: int|
        occurs_or_zero(x, a) && occurs(x, b) && a < b && b <= k && b - a == gap;
    assert forall|d: int| !(d > 1 && is_min_gap(x, d) && divides_all(x, d)) by {
        if d > 1 && is_min_gap(x, d) {
            assert(occurs_or_zero(x, a) && occurs(x, b));
        }
    }
}

/// The smallest gap is unique.
proof fn lemma_min_gap_same(x: Seq<u16>, d1: int, d2: int)
    requires
        is_min_gap(x, d1),
        is_min_gap(x, d2),
    ensures
        d1 == d2,
{
    let (a1, b1) = choose|a: int, b: int| occurs_or_zero(x, a) && occurs(x, b) && a < b && b - a == d1;
    let (a2, b2) = choose|a: int, b: int| occurs_or_zero(x, a) && occurs(x, b) && a < b && b - a == d2;
    assert(occurs_or_zero(x, a1) && occurs(x, b1));
    assert(occurs_or_zero(x, a2) && occurs(x, b2));
}

proof fn lemma_min_gap_unique(x: Seq<u16>, d: int)
    requires
        is_min_gap(x, d),
    ensures
        forall|e: int| is_min_gap(x, e) ==> e == d,
{
    assert forall|e: int| is_min_gap(x, e) implies e == d by {
        lemma_min_gap_same(x, d, e);
    }
}

/// Scaled values fit in 16 bits.
pub proof fn lemma_scaled_fit(x: Seq<u16>, scale: i32)
    requires
        scale == 1 || scale as u16 != 0,
    ensures
        crate::bit_stuffer2::simple_width(scaled_values(x, scale)) <= 16,
        crate::bit_stuffer2::simple_encodable(scaled_values(x, scale)),
{
    let v = scaled_values(x, scale);
    assert forall|i: int| 0 <= i < v.len() implies #[trigger] v[i] <= 0xFFFF by {
        if scale != 1 {
            let q = scale as u16;
            let xi = x[i];
            assert(xi / q <= xi) by (nonlinear_arith)
                requires
                    q >= 1,
            ;
        }
    }
    crate::bit_stuffer2::lemma_width_of_small(v);
}

proof fn lemma_payload_len(x: Seq<u16>, scale: i32, bpp: i32)
    requires
        x.len() * 2 + 64 <= i64::MAX,
        bpp == 16 || scale == 1 || scale as u16 != 0,
    ensures
        8 + intensity_payload(x, scale, bpp).len() + 24 <= i64::MAX,
{
    if bpp != 16 && !(bpp == 8 && scale == 1) && x.len() > 0 {
        lemma_scaled_fit(x, scale);
        crate::bit_stuffer2::lemma_simple_encoding_len(scaled_values(x, scale));
        let w = crate::bit_stuffer2::simple_width(scaled_values(x, scale));
        assert(x.len() * w <= x.len() * 16) by (nonlinear_arith)
            requires
                w <= 16,
        ;
    }
}

/// The header of an intensity blob reads back the fields it was written with.
#[verifier::rlimit(60)]
proof fn lemma_intensity_frame(x: Seq<u16>, r: int)
    requires
        0 < x.len(),
        x.len() <= u32::MAX,
        intensity_encoding(x, r as i32, intensity_bpp(x, r) as i32).len() <= u32::MAX,
        upscale_factor_is(x, r),
    ensures
        ({
            let e = intensity_encoding(x, r as i32, intensity_bpp(x, r) as i32);
            let payload = intensity_payload(x, r as i32, intensity_bpp(x, r) as i32);
            &&& checked_blob_size(e, intensity_key()) == Some((32 + payload.len()) as nat)
            &&& e.len() == 32 + payload.len()
            &&& header_count(e) == x.len()
            &&& header_scale(e) == r
            &&& header_bpp(e) == intensity_bpp(x, r)
            &&& intensity_bpp(x, r) <= 16
            &&& 1 <= r <= 65535
            &&& forall|i: int| 0 <= i < payload.len() ==> e[32 + i] == #[trigger] payload[i]
        }),
{
    lemma_upscale_factor_bound(x, r);
    let n = x.len();
    let s32 = r as i32;
    let m = (max16(x) as int / r) as nat;
    let bpp = intensity_bpp(x, r);
    let m32 = m as u32;
    assert(m <= max16(x)) by (nonlinear_arith)
        requires
            r >= 1,
            m == max16(x) as int / r,
    ;
    crate::bit_math::lemma_u32_shifts(m32, 0);
    crate::bit_stuffer2::lemma_width_below(m32, 16);
    let b32 = bpp as i32;
    let payload = intensity_payload(x, s32, b32);
    let head = le_bytes(n as u32 as nat, 4) + le_bytes(s32 as u16 as nat, 2) + seq![b32 as u8, 0u8];
    let rest = head + payload;
    crate::bit_stuffer2::lemma_le_bytes_len(n as u32 as nat, 4);
    crate::bit_stuffer2::lemma_le_bytes_len(s32 as u16 as nat, 2);
    let tail = le_bytes((24 + rest.len()) as nat, 8) + rest;
    crate::bit_stuffer2::lemma_le_bytes_len(crate::blob::K_CURR_VERSION as nat, 2);
    crate::bit_stuffer2::lemma_le_bytes_len(crate::common::fletcher32(tail) as nat, 4);
    crate::bit_stuffer2::lemma_le_bytes_len((24 + rest.len()) as nat, 8);
    let e = seal(intensity_key(), rest);
    crate::blob::lemma_seal_checks(intensity_key(), rest, Seq::empty());
    assert(e + Seq::<u8>::empty() =~= e);
    vstd::arithmetic::power2::lemma2_to64();
    assert(e.subrange(24, 28) =~= le_bytes(n as u32 as nat, 4));
    crate::bit_stuffer2::lemma_le_bytes_value(n as u32 as nat, 4, e, 24);
    assert(e.subrange(28, 30) =~= le_bytes(s32 as u16 as nat, 2));
    crate::bit_stuffer2::lemma_le_bytes_value(s32 as u16 as nat, 2, e, 28);
    assert(forall|i: int| 0 <= i < payload.len() ==> e[32 + i] == #[trigger] payload[i]);
}

proof fn lemma_values_u16(x: Seq<u16>, e: Seq<u8>, size: nat)
    requires
        header_bpp(e) == 16,
        header_count(e) == x.len(),
        e.len() == 32 + 2 * x.len(),
        forall|i: int| 0 <= i < 2 * x.len() ==> e[32 + i] == #[trigger] u16_bytes(x)[i],
    ensures
        intensity_values(e, size) == Some(x),
{
    assert forall|i: int| 0 <= i < x.len() implies #[trigger] (le_value(e, 32 + 2 * i, 2) as u16) == x[i] by {
        reveal_with_fuel(le_value, 3);
        assert(e[32 + 2 * i] == u16_bytes(x)[2 * i]);
        assert(e[32 + (2 * i + 1)] == u16_bytes(x)[2 * i + 1]);
        assert((2 * i) % 2 == 0 && (2 * i) / 2 == i);
        assert((2 * i + 1) % 2 == 1 && (2 * i + 1) / 2 == i);
    }
    assert(intensity_values(e, size).unwrap() =~= x);
}

proof fn lemma_values_bytes(x: Seq<u16>, e: Seq<u8>, size: nat)
    requires
        header_bpp(e) == 8,
        header_scale(e) == 1,
        header_count(e) == x.len(),
        e.len() == 32 + x.len(),
        forall|i: int| 0 <= i < x.len() ==> x[i] < 256,
        forall|i: int| 0 <= i < x.len() ==> e[32 + i] == #[trigger] (x[i] as u8),
    ensures
        intensity_values(e, size) == Some(x),
{
    assert forall|i: int| 0 <= i < x.len() implies #[trigger] (e[32 + i] as u16) == x[i] by {
        assert(e[32 + i] == x[i] as u8);
    }
    assert(intensity_values(e, size).unwrap() =~= x);
}

proof fn lemma_values_stuffed(x: Seq<u16>, r: int, e: Seq<u8>, size: nat)
    requires
        0 < x.len() <= u32::MAX,
        1 <= r <= 65535,
        r > 1 ==> divides_all(x, r),
        header_bpp(e) != 16,
        !(header_bpp(e) == 8 && header_scale(e) == 1),
        header_scale(e) == r,
        header_count(e) == x.len(),
        32 <= size <= e.len(),
        e.subrange(32, size as int) == simple_encoding(scaled_values(x, r as i32)),
    ensures
        intensity_values(e, size) == Some(x),
        match simple_decoding(e.subrange(32, size as int)) {
            None => false,
            Some(v) => forall|i: int|
                0 <= i < v.len() && i < header_count(e) ==> (#[trigger] v[i] as u16) * header_scale(e)
                    <= u16::MAX,
        },
{
    let s32 = r as i32;
    let v = scaled_values(x, s32);
    lemma_scaled_fit(x, s32);
    crate::bit_stuffer2::lemma_simple_roundtrip(v, Seq::empty());
    assert(simple_encoding(v) + Seq::<u8>::empty() =~= simple_encoding(v));
    assert forall|i: int| 0 <= i < x.len() implies (#[trigger] v[i] as u16) * (r as u16) == x[i] by {
        if r == 1 {
            assert(v[i] == x[i] as u32);
        } else {
            assert(x[i] as int % r == 0);
            let xi = x[i] as int;
            assert(v[i] == (x[i] / (s32 as u16)) as u32);
            assert((xi / r) * r == xi) by (nonlinear_arith)
                requires
                    r >= 1,
                    xi % r == 0,
            ;
        }
    }
    assert(intensity_values(e, size).unwrap() =~= x);
}

/// Decoding the intensity blob of `x`, written with its upscale factor and the
/// bits per value the encoder picks, gives back `x`.
pub proof fn lemma_intensity_roundtrip(x: Seq<u16>, r: int)
    requires
        0 < x.len(),
        x.len() <= u32::MAX,
        intensity_encoding(x, r as i32, intensity_bpp(x, r) as i32).len() <= u32::MAX,
        upscale_factor_is(x, r),
    ensures
        intensity_decoding(intensity_encoding(x, r as i32, intensity_bpp(x, r) as i32)) == Some(x),
{
    lemma_intensity_frame(x, r);
    let bpp = intensity_bpp(x, r);
    let s32 = r as i32;
    let b32 = bpp as i32;
    let e = intensity_encoding(x, s32, b32);
    let payload = intensity_payload(x, s32, b32);
    let size = (32 + payload.len()) as nat;
    lemma_max_bounds(x);
    if b32 == 16 {
        lemma_values_u16(x, e, size);
    } else if b32 == 8 && r == 1 {
        assert forall|i: int| 0 <= i < x.len() implies x[i] < 256 by {
            let xi = x[i];
            let mx = max16(x);
            let m32 = mx as u32;
            assert(xi <= mx);
            crate::bit_stuffer2::lemma_bit_width_small(m32);
            assert(bit_width(m32 as nat) == 8);
            assert(mx < 256);
        }
        lemma_values_bytes(x, e, size);
    } else {
        assert(e.subrange(32, size as int) =~= payload);
        lemma_values_stuffed(x, r, e, size);
    }
}


/// The upscale factor of values is unique.
pub proof fn lemma_upscale_factor_unique(x: Seq<u16>, r1: int, r2: int)
    requires
        upscale_factor_is(x, r1),
        upscale_factor_is(x, r2),
    ensures
        r1 == r2,
{
    if r1 > 1 && r2 > 1 {
        lemma_min_gap_same(x, r1, r2);
    }
}

/// The largest scaled value is the largest value scaled.
proof fn lemma_max_scaled(x: Seq<u16>, scale: i32)
    requires
        scale == 1 || scale as u16 != 0,
    ensures
        crate::bit_stuffer2::seq_max(scaled_values(x, scale)) == if scale == 1 {
            max16(x) as int
        } else {
            max16(x) as int / (scale as u16) as int
        },
    decreases x.len(),
{
    if x.len() > 0 {
        let t = x.drop_last();
        lemma_max_scaled(t, scale);
        let v = scaled_values(x, scale);
        assert(v.drop_last() =~= scaled_values(t, scale));
        if scale != 1 {
            let q = (scale as u16) as int;
            let a = x.last() as int;
            let b = max16(t) as int;
            if a <= b {
                vstd::arithmetic::div_mod::lemma_div_is_ordered(a, b, q);
            } else {
                vstd::arithmetic::div_mod::lemma_div_is_ordered(b, a, q);
            }
        }
    }
}

/// The intensity blob of non-empty values, written with their upscale factor
/// and the bits per value the encoder picks, is as long as the encoder computed.
pub proof fn lemma_intensity_predicted_size(x: Seq<u16>, r: int)
    requires
        0 < x.len() <= u32::MAX,
        upscale_factor_is(x, r),
    ensures
        intensity_encoding(x, r as i32, intensity_bpp(x, r) as i32).len() == intensity_num_bytes(x, r),
{
    let bpp = intensity_bpp(x, r);
    let s32 = r as i32;
    let b32 = bpp as i32;
    let e = intensity_encoding(x, s32, b32);
    let payload = intensity_payload(x, s32, b32);
    let rest = le_bytes(x.len() as u32 as nat, 4) + le_bytes(s32 as u16 as nat, 2) + seq![b32 as u8, 0u8]
        + payload;
    let tail = le_bytes((24 + rest.len()) as nat, 8) + rest;
    crate::bit_stuffer2::lemma_le_bytes_len(x.len() as u32 as nat, 4);
    crate::bit_stuffer2::lemma_le_bytes_len(s32 as u16 as nat, 2);
    crate::bit_stuffer2::lemma_le_bytes_len(crate::blob::K_CURR_VERSION as nat, 2);
    crate::bit_stuffer2::lemma_le_bytes_len(crate::common::fletcher32(tail) as nat, 4);
    crate::bit_stuffer2::lemma_le_bytes_len((24 + rest.len()) as nat, 8);
    assert(e.len() == 32 + payload.len());
    lemma_upscale_factor_bound(x, r);
    if bpp == 16 {
        assert(payload.len() == 2 * x.len());
        assert(x.len() * (bpp / 8) == x.len() * 2);
    } else if bpp == 8 && r == 1 {
        assert(payload.len() == x.len());
        assert(x.len() * (bpp / 8) == x.len() * 1);
    } else {
        let v = scaled_values(x, s32);
        lemma_scaled_fit(x, s32);
        assert(s32 as u16 == r);
        lemma_max_scaled(x, s32);
        crate::bit_stuffer2::lemma_simple_encoding_len(v);
        if r == 1 {
            assert(max16(x) as int / 1 == max16(x) as int);
        }
        assert(crate::bit_stuffer2::seq_max(v) == max16(x) as int / r);
        assert(payload.len() == simple_encoded_len(x.len() as u32, (max16(x) as int / r) as u32));
    }
}

/// The intensity blob of non-empty values, written with their upscale factor
/// and the bits per value the encoder picks, is a whole blob with a matching
/// checksum, records the number of values, and is as long as the encoder computed.
pub proof fn lemma_intensity_blob_size(x: Seq<u16>, r: int)
    requires
        0 < x.len(),
        x.len() <= u32::MAX,
        intensity_encoding(x, r as i32, intensity_bpp(x, r) as i32).len() <= u32::MAX,
        upscale_factor_is(x, r),
    ensures
        ({
            let e = intensity_encoding(x, r as i32, intensity_bpp(x, r) as i32);
            &&& checked_blob_size(e, intensity_key()) == Some(e.len())
            &&& header_count(e) == x.len()
            &&& e.len() == intensity_num_bytes(x, r)
        }),
{
    lemma_intensity_frame(x, r);
    let bpp = intensity_bpp(x, r);
    let s32 = r as i32;
    let e = intensity_encoding(x, s32, bpp as i32);
    let payload = intensity_payload(x, s32, bpp as i32);
    assert(e.len() == 32 + payload.len());
    if bpp == 16 {
        assert(payload.len() == 2 * x.len());
        assert(x.len() * (bpp / 8) == x.len() * 2);
        assert(e.len() == intensity_num_bytes(x, r));
    } else if bpp == 8 && r == 1 {
        assert(payload.len() == x.len());
        assert(x.len() * (bpp / 8) == x.len() * 1);
        assert(e.len() == intensity_num_bytes(x, r));
    } else {
        let v = scaled_values(x, s32);
        lemma_scaled_fit(x, s32);
        lemma_max_scaled(x, s32);
        crate::bit_stuffer2::lemma_simple_encoding_len(v);
        assert(s32 as u16 == r);
        assert(crate::bit_stuffer2::seq_max(v) == max16(x) as int / r);
        assert(payload.len() == simple_encoded_len(x.len() as u32, (max16(x) as int / r) as u32));
        assert(e.len() == intensity_num_bytes(x, r));
    }
    assert(checked_blob_size(e, intensity_key()) == Some(e.len()));
}

} // verus!