//! Common utilities - Fletcher's checksum
use vstd::prelude::*;
use crate::types::Byte;

verus! {

/// Number of 16-bit words summed between two reductions.
pub open spec fn fletcher_block_words() -> nat {
    359
}

/// What byte `k` adds to the first sum: the high byte of a word is shifted up by 8.
pub open spec fn fletcher_term(data: Seq<u8>, k: int) -> u32 {
    if k % 2 == 0 {
        (data[k] as u32 * 256) as u32
    } else {
        data[k] as u32
    }
}

/// One step of the two running sums (each modulo 2^32) over one byte.
pub open spec fn fletcher_step(sums: (u32, u32), term: u32) -> (u32, u32) {
    let s1 = vstd::wrapping::u32_specs::wrapping_add(sums.0, term);
    (s1, vstd::wrapping::u32_specs::wrapping_add(sums.1, s1))
}

/// The running sums after the bytes `from .. to`.
pub open spec fn fletcher_run(data: Seq<u8>, sums: (u32, u32), from: int, to: int) -> (u32, u32)
    decreases to - from,
{
    if to <= from {
        sums
    } else {
        fletcher_step(fletcher_run(data, sums, from, to - 1), fletcher_term(data, to - 1))
    }
}

/// Folding the upper 16 bits of a sum into its lower 16 bits.
pub open spec fn fletcher_reduce(x: u32) -> u32 {
    ((x & 0xFFFF) + (x >> 16)) as u32
}

/// The sums after the remaining `words_left` words, starting at word `words_done`,
/// reduced after every block.
pub open spec fn fletcher_blocks(data: Seq<u8>, sums: (u32, u32), words_done: nat, words_left: nat) -> (
    u32,
    u32,
)
    decreases words_left,
{
    if words_left == 0 {
        sums
    } else {
        let t = if words_left >= fletcher_block_words() {
            fletcher_block_words()
        } else {
            words_left
        };
        let after = fletcher_run(data, sums, 2 * words_done as int, 2 * (words_done + t) as int);
        fletcher_blocks(
            data,
            (fletcher_reduce(after.0), fletcher_reduce(after.1)),
            words_done + t,
            (words_left - t) as nat,
        )
    }
}

/// Fletcher's 32-bit checksum of a byte string: big-endian 16-bit words, a
/// trailing odd byte as the high byte of a last word, sums starting at 0xFFFF.
/// The empty string has the checksum 0xFFFF0000.
pub open spec fn fletcher32(data: Seq<u8>) -> u32 {
    if data.len() == 0 {
        0xFFFF0000
    } else {
        fletcher32_sums(data)
    }
}

/// The checksum from the two sums over the words of `data`.
pub open spec fn fletcher32_sums(data: Seq<u8>) -> u32 {
    let words = fletcher_blocks(data, (0xFFFFu32, 0xFFFFu32), 0, data.len() / 2);
    let sums = if data.len() % 2 == 1 {
        fletcher_step(words, fletcher_term(data, data.len() - 1))
    } else {
        words
    };
    (fletcher_reduce(sums.1) << 16u32) | fletcher_reduce(sums.0)
}

proof fn reduce_fits(x: u32)
    ensures
        (x & 0xFFFFu32) + (x >> 16u32) <= 0x1FFFE,
{
    assert((x & 0xFFFFu32) + (x >> 16u32) <= 0x1FFFE) by (bit_vector);
}

/// Compute Fletcher's checksum (32-bit version)
///
/// From https://en.wikipedia.org/wiki/Fletcher's_checksum
/// Modified from ushorts to bytes (by Lucian Plesea)
pub fn compute_checksum_fletcher32(data: &[Byte]) -> (c: u32)
    ensures
        c == fletcher32(data@),
{
    if data.len() == 0 {
        return 0xFFFF0000;
    }
    let mut sum1: u32 = 0xFFFF;
    let mut sum2: u32 = 0xFFFF;
    let mut words: usize = data.len() / 2;
    let mut pos: usize = 0;
    let ghost total = (data.len() / 2) as nat;
    while words > 0
        invariant
            words <= total,
            total == data.len() / 2,
            pos == 2 * (total - words),
            fletcher_blocks(data@, (0xFFFFu32, 0xFFFFu32), 0, total) == fletcher_blocks(
                data@,
                (sum1, sum2),
                (total - words) as nat,
                words as nat,
            ),
        decreases words,
    {
        let tlen: usize = if words >= 359 {
            359
        } else {
            words
        };
        let ghost start = pos as int;
        let ghost before = (sum1, sum2);
        words = words - tlen;
        let mut len = tlen;
        while len > 0
            invariant
                len <= tlen,
                pos == start + 2 * (tlen - len),
                start + 2 * tlen <= data.len(),
                start % 2 == 0,
                (sum1, sum2) == fletcher_run(data@, before, start, pos as int),
            decreases len,
        {
            sum1 = sum1.wrapping_add((data[pos] as u32) << 8u32);
            proof {
                let b = data@[pos as int] as u32;
                assert(b << 8u32 == (b * 256) as u32) by (bit_vector)
                    requires
                        b < 256,
                ;
                assert(pos % 2 == 0);
            }
            sum2 = sum2.wrapping_add(sum1);
            pos = pos + 1;
            sum1 = sum1.wrapping_add(data[pos] as u32);
            sum2 = sum2.wrapping_add(sum1);
            pos = pos + 1;
            len = len - 1;
            proof {
                assert(fletcher_run(data@, before, start, pos - 1) == fletcher_step(
                    fletcher_run(data@, before, start, pos - 2),
                    fletcher_term(data@, pos - 2),
                ));
                assert(fletcher_run(data@, before, start, pos as int) == fletcher_step(
                    fletcher_run(data@, before, start, pos - 1),
                    fletcher_term(data@, pos - 1),
                ));
            }
        }
        proof {
            reduce_fits(sum1);
            reduce_fits(sum2);
        }
        sum1 = (sum1 & 0xFFFFu32).wrapping_add(sum1 >> 16u32);
        sum2 = (sum2 & 0xFFFFu32).wrapping_add(sum2 >> 16u32);
    }
    // Add the straggler byte if it exists
    let data_len = data.len();
    proof {
        assert(data_len & 1 != 0 <==> data_len % 2 == 1) by (bit_vector);
        assert(fletcher_blocks(data@, (sum1, sum2), total, 0) == (sum1, sum2));
    }
    if data_len & 1 != 0 {
        let last = data[data.len() - 1];
        sum1 = sum1.wrapping_add((last as u32) << 8u32);
        sum2 = sum2.wrapping_add(sum1);
        proof {
            let b = last as u32;
            assert(b << 8u32 == (b * 256) as u32) by (bit_vector)
                requires
                    b < 256,
            ;
        }
    }
    // Second reduction step to reduce sums to 16 bits
    proof {
        reduce_fits(sum1);
        reduce_fits(sum2);
    }
    sum1 = (sum1 & 0xFFFFu32).wrapping_add(sum1 >> 16u32);
    sum2 = (sum2 & 0xFFFFu32).wrapping_add(sum2 >> 16u32);
    sum2 << 16u32 | sum1
}

} // verus!
