//! The frame shared by every LEPCC blob: a 10-byte file key, a 16-bit version,
//! a Fletcher checksum of everything from byte 16 on, and the blob size as a
//! 64-bit integer at byte 16. All numbers are little-endian.
use vstd::prelude::*;
use crate::bit_math::{le_value, le_bytes};
use crate::bit_stuffer2::{lemma_le_bytes_len, lemma_le_bytes_value};
use crate::common::{fletcher32, compute_checksum_fletcher32};
use crate::error::{LepccError, Result, failed, not_lepcc, is_failed, is_not_lepcc, is_too_small};

verus! {

/// Size of the top header and the first header of the RGB, intensity and flag-byte blobs.
pub const HEADER_SIZE: usize = 32;

/// Format version written into every blob.
pub const K_CURR_VERSION: u16 = 1;

/// The blob size recorded in a blob's header.
pub open spec fn blob_size_field(d: Seq<u8>) -> nat {
    le_value(d, 16, 8)
}

/// The checksum recorded in a blob's header.
pub open spec fn checksum_field(d: Seq<u8>) -> nat {
    le_value(d, 12, 4)
}

/// The first ten bytes of `d` are `key`.
pub open spec fn has_key(d: Seq<u8>, key: Seq<u8>) -> bool {
    d.len() >= 10 && d.subrange(0, 10) == key
}

/// The blob size reported for `d`, or `None` when the header does not give one.
pub open spec fn blob_size_result(d: Seq<u8>, key: Seq<u8>) -> Option<nat> {
    if d.len() < 24 || !has_key(d, key) || blob_size_field(d) > u32::MAX {
        None
    } else {
        Some(blob_size_field(d))
    }
}

/// The error reported when the header does not give a blob size.
pub open spec fn blob_size_error(d: Seq<u8>, key: Seq<u8>, e: LepccError) -> bool {
    if d.len() < 24 {
        is_too_small(e, 24, d.len() as int)
    } else if !has_key(d, key) {
        is_not_lepcc(e, "Invalid file key"@)
    } else {
        is_failed(e, "Invalid blob size"@)
    }
}


/// `d` holds a whole blob with a matching key and checksum; returns its size.
pub open spec fn checked_blob_size(d: Seq<u8>, key: Seq<u8>) -> Option<nat> {
    match blob_size_result(d, key) {
        None => None,
        Some(n) => if d.len() < n || n < 16 || fletcher32(d.subrange(16, n as int)) != checksum_field(d) {
            None
        } else {
            Some(n)
        },
    }
}

/// The error reported when `d` is not a whole blob with a matching checksum.
pub open spec fn checked_blob_error(d: Seq<u8>, key: Seq<u8>, e: LepccError) -> bool {
    match blob_size_result(d, key) {
        None => blob_size_error(d, key, e),
        Some(n) => if d.len() < n {
            is_too_small(e, n as int, d.len() as int)
        } else if n < 16 {
            is_failed(e, "Invalid blob size"@)
        } else {
            e == LepccError::WrongChecksum {
                expected: checksum_field(d) as u32,
                found: fletcher32(d.subrange(16, n as int)),
            }
        },
    }
}

/// The blob with the given file key and everything after the blob size.
pub open spec fn seal(key: Seq<u8>, rest: Seq<u8>) -> Seq<u8> {
    let tail = le_bytes((24 + rest.len()) as nat, 8) + rest;
    key + le_bytes(K_CURR_VERSION as nat, 2) + le_bytes(fletcher32(tail) as nat, 4) + tail
}

/// Little-endian value of the 2 bytes at `pos`.
pub fn read_u16(data: &[u8], pos: usize) -> (v: u16)
    requires
        pos + 2 <= data@.len(),
    ensures
        v == le_value(data@, pos as int, 2),
{
    reveal_with_fuel(le_value, 3);
    let b0 = data[pos];
    let b1 = data[pos + 1];
    assert(((b0 as u16) | ((b1 as u16) << 8u16)) == b0 as u16 + 256 * (b1 as u16)) by (bit_vector);
    (b0 as u16) | ((b1 as u16) << 8u16)
}

/// Little-endian value of the 4 bytes at `pos`.
pub fn read_u32(data: &[u8], pos: usize) -> (v: u32)
    requires
        pos + 4 <= data@.len(),
    ensures
        v == le_value(data@, pos as int, 4),
{
    reveal_with_fuel(le_value, 5);
    let b0 = data[pos];
    let b1 = data[pos + 1];
    let b2 = data[pos + 2];
    let b3 = data[pos + 3];
    assert(((b0 as u32) | ((b1 as u32) << 8u32) | ((b2 as u32) << 16u32) | ((b3 as u32) << 24u32))
        == b0 as u32 + 256 * (b1 as u32 + 256 * (b2 as u32 + 256 * (b3 as u32)))) by (bit_vector);
    (b0 as u32) | ((b1 as u32) << 8u32) | ((b2 as u32) << 16u32) | ((b3 as u32) << 24u32)
}

/// Little-endian value of the 8 bytes at `pos`.
pub fn read_u64(data: &[u8], pos: usize) -> (v: u64)
    requires
        pos + 8 <= data@.len(),
    ensures
        v == le_value(data@, pos as int, 8),
{
    reveal_with_fuel(le_value, 9);
    let b0 = data[pos] as u64;
    let b1 = data[pos + 1] as u64;
    let b2 = data[pos + 2] as u64;
    let b3 = data[pos + 3] as u64;
    let b4 = data[pos + 4] as u64;
    let b5 = data[pos + 5] as u64;
    let b6 = data[pos + 6] as u64;
    let b7 = data[pos + 7] as u64;
    assert(b0 | (b1 << 8u64) | (b2 << 16u64) | (b3 << 24u64) | (b4 << 32u64) | (b5 << 40u64) | (b6
        << 48u64) | (b7 << 56u64) == b0 + 256 * (b1 + 256 * (b2 + 256 * (b3 + 256 * (b4 + 256 * (b5
        + 256 * (b6 + 256 * b7))))))) by (bit_vector)
        requires
            b0 < 256,
            b1 < 256,
            b2 < 256,
            b3 < 256,
            b4 < 256,
            b5 < 256,
            b6 < 256,
            b7 < 256,
    ;
    b0 | (b1 << 8u64) | (b2 << 16u64) | (b3 << 24u64) | (b4 << 32u64) | (b5 << 40u64) | (b6 << 48u64)
        | (b7 << 56u64)
}

/// Appends the little-endian bytes of a 16-bit number.
pub fn push_u16(buf: &mut Vec<u8>, v: u16)
    ensures
        final(buf)@ == old(buf)@ + le_bytes(v as nat, 2),
{
    push_le(buf, v as u64, 2);
}

/// Appends the little-endian bytes of a 32-bit number.
pub fn push_u32(buf: &mut Vec<u8>, v: u32)
    ensures
        final(buf)@ == old(buf)@ + le_bytes(v as nat, 4),
{
    push_le(buf, v as u64, 4);
}

/// Appends the little-endian bytes of a 64-bit number.
pub fn push_u64(buf: &mut Vec<u8>, v: u64)
    ensures
        final(buf)@ == old(buf)@ + le_bytes(v as nat, 8),
{
    push_le(buf, v, 8);
}

/// Appends the `nb` lowest bytes of `v`, least significant first.
pub(crate) fn push_le(buf: &mut Vec<u8>, v: u64, nb: usize)
    requires
        nb <= 8,
    ensures
        final(buf)@ == old(buf)@ + le_bytes(v as nat, nb as nat),
    decreases nb,
{
    if nb > 0 {
        buf.push((v & 0xFFu64) as u8);
        assert(v & 0xFFu64 == v % 256 && v >> 8u64 == v / 256) by (bit_vector);
        push_le(buf, v >> 8u64, nb - 1);
        proof {
            assert(final(buf)@ =~= old(buf)@ + le_bytes(v as nat, nb as nat));
        }
    } else {
        proof {
            assert(final(buf)@ =~= old(buf)@ + le_bytes(v as nat, nb as nat));
        }
    }
}

/// Does `data` start with `key`?
pub fn key_matches(data: &[u8], key: &[u8]) -> (r: bool)
    requires
        key@.len() == 10,
        data@.len() >= 10,
    ensures
        r == has_key(data@, key@),
{
    let mut i: usize = 0;
    while i < 10
        invariant
            i <= 10,
            key@.len() == 10,
            data@.len() >= 10,
            forall|j: int| 0 <= j < i ==> data@[j] == key@[j],
        decreases 10 - i,
    {
        if data[i] != key[i] {
            proof {
                assert(data@.subrange(0, 10)[i as int] != key@[i as int]);
            }
            return false;
        }
        i = i + 1;
    }
    proof {
        assert(data@.subrange(0, 10) =~= key@);
    }
    true
}

/// The blob size recorded in the header of a blob with file key `key`.
pub fn get_blob_size(data: &[u8], key: &[u8]) -> (r: Result<u32>)
    requires
        key@.len() == 10,
    ensures
        match r {
            Ok(n) => blob_size_result(data@, key@) == Some(n as nat),
            Err(e) => blob_size_result(data@, key@) is None && blob_size_error(data@, key@, e),
        },
{
    if data.len() < 24 {
        return Err(LepccError::BufferTooSmall { needed: 24, provided: data.len() });
    }
    if !key_matches(data, key) {
        return Err(not_lepcc("Invalid file key"));
    }
    let blob_size = read_u64(data, 16);
    if blob_size > 0xFFFF_FFFFu64 {
        return Err(failed("Invalid blob size"));
    }
    Ok(blob_size as u32)
}

/// Checks that `data` holds a whole blob with file key `key` and a matching
/// checksum; returns the blob size.
pub fn check_blob(data: &[u8], key: &[u8]) -> (r: Result<usize>)
    requires
        key@.len() == 10,
    ensures
        match r {
            Ok(n) => checked_blob_size(data@, key@) == Some(n as nat) && 16 <= n <= data@.len(),
            Err(e) => checked_blob_size(data@, key@) is None && checked_blob_error(data@, key@, e),
        },
{
    let blob_size = get_blob_size(data, key)? as usize;
    if data.len() < blob_size {
        return Err(LepccError::BufferTooSmall { needed: blob_size, provided: data.len() });
    }
    if blob_size < 16 {
        return Err(failed("Invalid blob size"));
    }
    let checksum = compute_checksum_fletcher32(&data[16..blob_size]);
    let stored_checksum = read_u32(data, 12);
    if checksum != stored_checksum {
        return Err(LepccError::WrongChecksum { expected: stored_checksum, found: checksum });
    }
    Ok(blob_size)
}

/// The blob with file key `key` whose header is followed by `rest`: writes the
/// version, the blob size and the checksum.
pub fn seal_blob(key: &[u8], rest: &[u8]) -> (blob: Vec<u8>)
    requires
        key@.len() == 10,
        rest@.len() + 24 <= i64::MAX,
    ensures
        blob@ == seal(key@, rest@),
{
    let mut tail: Vec<u8> = Vec::new();
    let blob_size = 24 + rest.len() as u64;
    push_u64(&mut tail, blob_size);
    let mut i: usize = 0;
    while i < rest.len()
        invariant
            i <= rest@.len(),
            tail@ == le_bytes(blob_size as nat, 8) + rest@.subrange(0, i as int),
        decreases rest@.len() - i,
    {
        tail.push(rest[i]);
        i = i + 1;
        proof {
            assert(tail@ =~= le_bytes(blob_size as nat, 8) + rest@.subrange(0, i as int));
        }
    }
    proof {
        assert(rest@.subrange(0, rest@.len() as int) =~= rest@);
    }
    let checksum = compute_checksum_fletcher32(tail.as_slice());
    let mut blob: Vec<u8> = Vec::new();
    let mut j: usize = 0;
    while j < 10
        invariant
            j <= 10,
            key@.len() == 10,
            blob@ == key@.subrange(0, j as int),
        decreases 10 - j,
    {
        blob.push(key[j]);
        j = j + 1;
        proof {
            assert(blob@ =~= key@.subrange(0, j as int));
        }
    }
    proof {
        assert(key@.subrange(0, 10) =~= key@);
    }
    push_u16(&mut blob, K_CURR_VERSION);
    push_u32(&mut blob, checksum);
    let mut k: usize = 0;
    let ghost before = blob@;
    while k < tail.len()
        invariant
            k <= tail@.len(),
            blob@ == before + tail@.subrange(0, k as int),
        decreases tail@.len() - k,
    {
        blob.push(tail[k]);
        k = k + 1;
        proof {
            assert(blob@ =~= before + tail@.subrange(0, k as int));
        }
    }
    proof {
        assert(tail@.subrange(0, tail@.len() as int) =~= tail@);
        assert(blob@ =~= seal(key@, rest@));
    }
    blob
}

/// A sealed blob, followed by anything, passes the frame checks and reports its size.
pub proof fn lemma_seal_checks(key: Seq<u8>, rest: Seq<u8>, extra: Seq<u8>)
    requires
        key.len() == 10,
        rest.len() + 24 <= u32::MAX,
    ensures
        ({
            let d = seal(key, rest) + extra;
            &&& checked_blob_size(d, key) == Some((24 + rest.len()) as nat)
            &&& d.subrange(0, seal(key, rest).len() as int) == seal(key, rest)
            &&& seal(key, rest).len() == 24 + rest.len()
        }),
{
    let size = (24 + rest.len()) as nat;
    let tail = le_bytes(size, 8) + rest;
    let s = seal(key, rest);
    let d = s + extra;
    vstd::arithmetic::power2::lemma2_to64();
    lemma_le_bytes_len(K_CURR_VERSION as nat, 2);
    lemma_le_bytes_len(fletcher32(tail) as nat, 4);
    lemma_le_bytes_len(size, 8);
    assert(s.len() == 24 + rest.len());
    assert(d.subrange(0, 10) =~= key);
    assert(d.subrange(16, 24) =~= le_bytes(size, 8));
    lemma_le_bytes_value(size, 8, d, 16);
    assert(d.subrange(12, 16) =~= le_bytes(fletcher32(tail) as nat, 4));
    lemma_le_bytes_value(fletcher32(tail) as nat, 4, d, 12);
    assert(d.subrange(16, size as int) =~= tail);
    assert(d.subrange(0, s.len() as int) =~= s);
}

} // verus!
