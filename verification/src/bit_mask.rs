//! BitMask - Convenient and fast access to binary mask bits
//!
//! Bit `k` lives in byte `k / 8`, most significant bit first.
use vstd::prelude::*;
use crate::types::Byte;

verus! {

/// The single-bit mask that selects bit `k` inside its byte.
pub open spec fn bit_in_byte(k: int) -> u8 {
    0x80u8 >> ((k % 8) as u8)
}

/// Bit `k` of a mask stored in `bits`.
pub open spec fn mask_bit(bits: Seq<u8>, k: int) -> bool {
    bits[k as int / 8] & bit_in_byte(k) != 0
}

/// Number of set bits among positions `lo .. hi`.
pub open spec fn count_set(bits: Seq<u8>, lo: int, hi: int) -> nat
    decreases hi - lo,
{
    if hi <= lo {
        0
    } else {
        count_set(bits, lo, hi - 1) + if mask_bit(bits, hi - 1) {
            1nat
        } else {
            0nat
        }
    }
}

/// Number of bytes that hold `n` bits.
pub open spec fn bytes_for_bits(n: nat) -> nat {
    (n + 7) / 8
}

/// BitMask for efficient bit-level storage and access
#[derive(Clone)]
pub struct BitMask {
    bits: Vec<Byte>,
    n_cols: usize,
    n_rows: usize,
}

impl BitMask {
    /// The bytes that hold the bits.
    pub closed spec fn bytes(self) -> Seq<u8> {
        self.bits@
    }

    /// Number of columns.
    pub closed spec fn cols(self) -> nat {
        self.n_cols as nat
    }

    /// Number of rows.
    pub closed spec fn rows(self) -> nat {
        self.n_rows as nat
    }

    /// Number of bits in the mask.
    pub open spec fn num_bits(self) -> nat {
        self.cols() * self.rows()
    }

    /// The mask's sizes fit the machine and its bytes hold exactly its bits.
    pub open spec fn wf(self) -> bool {
        &&& self.num_bits() + 7 <= usize::MAX
        &&& self.bytes().len() == bytes_for_bits(self.num_bits())
    }

    /// Bit `k` is set (valid); positions outside the mask are not.
    pub open spec fn valid(self, k: int) -> bool {
        0 <= k < self.num_bits() && mask_bit(self.bytes(), k)
    }

    /// Create a new empty BitMask
    pub fn new() -> (m: Self)
        ensures
            m.wf(),
            m.cols() == 0,
            m.rows() == 0,
            m.bytes() == Seq::<u8>::empty(),
    {
        BitMask { bits: Vec::new(), n_cols: 0, n_rows: 0 }
    }

    /// Create a new BitMask with the specified size, all bits clear
    pub fn with_size(n_cols: usize, n_rows: usize) -> (m: Self)
        requires
            n_cols * n_rows + 7 <= usize::MAX,
        ensures
            m.wf(),
            m.cols() == n_cols,
            m.rows() == n_rows,
            m.bytes() == Seq::new(bytes_for_bits(m.num_bits()), |i: int| 0u8),
    {
        let num_bytes = (n_cols * n_rows + 7) >> 3usize;
        proof {
            lemma_bit_of((n_cols * n_rows + 7) as usize);
        }
        let m = BitMask { bits: vec![0u8; num_bytes], n_cols, n_rows };
        proof {
            assert(m.bytes() =~= Seq::new(bytes_for_bits(m.num_bits()), |i: int| 0u8));
        }
        m
    }

    /// Get the column count
    pub fn width(&self) -> (w: usize)
        ensures
            w == self.cols(),
    {
        self.n_cols
    }

    /// Get the row count
    pub fn height(&self) -> (h: usize)
        ensures
            h == self.rows(),
    {
        self.n_rows
    }

    /// Get the number of bytes used
    pub fn size(&self) -> (s: usize)
        requires
            self.wf(),
        ensures
            s == bytes_for_bits(self.num_bits()),
    {
        let t = self.n_cols * self.n_rows + 7;
        proof {
            lemma_bit_of(t);
        }
        t >> 3usize
    }

    /// Get the raw bits slice
    pub fn bits(&self) -> (b: &[Byte])
        ensures
            b@ == self.bytes(),
    {
        self.bits.as_slice()
    }

    /// Get mutable reference to bits
    pub fn bits_mut(&mut self) -> (b: &mut [Byte])
        ensures
            b@ == old(self).bytes(),
            final(self).bytes() == final(b)@,
            final(self).cols() == old(self).cols(),
            final(self).rows() == old(self).rows(),
    {
        self.bits.as_mut_slice()
    }

    /// Get the bit value for the given index (1: valid, 0: not valid)
    pub fn is_valid(&self, k: usize) -> (r: bool)
        requires
            self.wf(),
        ensures
            r == self.valid(k as int),
    {
        if k >= self.n_cols * self.n_rows {
            return false;
        }
        proof {
            lemma_bit_of(k);
        }
        (self.bits[k >> 3usize] & Self::bit(k)) != 0
    }

    /// Get the bit value for the given row and col
    pub fn is_valid_rc(&self, row: usize, col: usize) -> (r: bool)
        requires
            self.wf(),
            row * self.cols() + col <= usize::MAX,
        ensures
            r == self.valid(row * self.cols() + col),
    {
        self.is_valid(row * self.n_cols + col)
    }

    /// Set the bit as valid (1) at the given index
    pub fn set_valid(&mut self, k: usize)
        requires
            old(self).wf(),
        ensures
            final(self).wf(),
            final(self).cols() == old(self).cols(),
            final(self).rows() == old(self).rows(),
            final(self).bytes() == if k < old(self).num_bits() {
                old(self).bytes().update(
                    k as int / 8,
                    old(self).bytes()[k as int / 8] | bit_in_byte(k as int),
                )
            } else {
                old(self).bytes()
            },
            forall|j: int| #[trigger]
                final(self).valid(j) == (old(self).valid(j) || (j == k && k < old(self).num_bits())),
    {
        if k < self.n_cols * self.n_rows {
            proof {
                lemma_bit_of(k);
            }
            let i = k >> 3usize;
            let byte = self.bits[i] | Self::bit(k);
            self.bits.set(i, byte);
            proof {
                assert forall|j: int| #[trigger] self.valid(j) == (old(self).valid(j) || j == k) by {
                    if 0 <= j < self.num_bits() {
                        lemma_set_bit(old(self).bytes()[k as int / 8], k as int, j);
                        if j / 8 == k / 8 {
                        } else {
                            assert(self.bytes()[j / 8] == old(self).bytes()[j / 8]);
                        }
                    }
                }
            }
        }
    }

    /// Set the bit as valid (1) at the given flattened 2D index (row * n_cols + col)
    pub fn set_valid_2d(&mut self, row: usize, col: usize)
        requires
            old(self).wf(),
            row * old(self).cols() + col <= usize::MAX,
        ensures
            final(self).wf(),
            final(self).cols() == old(self).cols(),
            final(self).rows() == old(self).rows(),
            forall|j: int| #[trigger]
                final(self).valid(j) == (old(self).valid(j) || (j == row * old(self).cols() + col
                    && j < old(self).num_bits())),
    {
        let k = row * self.n_cols + col;
        self.set_valid(k);
    }

    /// Set the bit as invalid (0) at the given index
    pub fn set_invalid(&mut self, k: usize)
        requires
            old(self).wf(),
        ensures
            final(self).wf(),
            final(self).cols() == old(self).cols(),
            final(self).rows() == old(self).rows(),
            final(self).bytes() == if k < old(self).num_bits() {
                old(self).bytes().update(
                    k as int / 8,
                    old(self).bytes()[k as int / 8] & !bit_in_byte(k as int),
                )
            } else {
                old(self).bytes()
            },
            forall|j: int| #[trigger] final(self).valid(j) == (old(self).valid(j) && j != k),
    {
        if k < self.n_cols * self.n_rows {
            proof {
                lemma_bit_of(k);
            }
            let i = k >> 3usize;
            let byte = self.bits[i] & !Self::bit(k);
            self.bits.set(i, byte);
            proof {
                assert forall|j: int| #[trigger] self.valid(j) == (old(self).valid(j) && j != k) by {
                    if 0 <= j < self.num_bits() {
                        lemma_clear_bit(old(self).bytes()[k as int / 8], k as int, j);
                        if j / 8 == k / 8 {
                        } else {
                            assert(self.bytes()[j / 8] == old(self).bytes()[j / 8]);
                        }
                    }
                }
            }
        }
    }

    /// Set the bit as invalid (0) at the given row and col
    pub fn set_invalid_rc(&mut self, row: usize, col: usize)
        requires
            old(self).wf(),
            row * old(self).cols() + col <= usize::MAX,
        ensures
            final(self).wf(),
            final(self).cols() == old(self).cols(),
            final(self).rows() == old(self).rows(),
            forall|j: int| #[trigger]
                final(self).valid(j) == (old(self).valid(j) && j != row * old(self).cols() + col),
    {
        let k = row * self.n_cols + col;
        self.set_invalid(k);
    }

    /// Set all bits to valid (1)
    pub fn set_all_valid(&mut self)
        requires
            old(self).wf(),
        ensures
            final(self).wf(),
            final(self).cols() == old(self).cols(),
            final(self).rows() == old(self).rows(),
            final(self).bytes() == Seq::new(old(self).bytes().len(), |i: int| 0xFFu8),
            forall|j: int| #[trigger] final(self).valid(j) == (0 <= j < old(self).num_bits()),
    {
        self.fill_bytes(0xFF);
        proof {
            assert forall|j: int| #[trigger] self.valid(j) == (0 <= j < old(self).num_bits()) by {
                if 0 <= j < self.num_bits() {
                    assert(self.bytes()[j / 8] == 0xFFu8);
                    let s = (j % 8) as u8;
                    lemma_byte_bits(0xFFu8, 0, 0, s);
                }
            }
        }
    }

    /// Set all bits to invalid (0)
    pub fn set_all_invalid(&mut self)
        requires
            old(self).wf(),
        ensures
            final(self).wf(),
            final(self).cols() == old(self).cols(),
            final(self).rows() == old(self).rows(),
            final(self).bytes() == Seq::new(old(self).bytes().len(), |i: int| 0u8),
            forall|j: int| !(#[trigger] final(self).valid(j)),
    {
        self.fill_bytes(0);
        proof {
            assert forall|j: int| !(#[trigger] self.valid(j)) by {
                if 0 <= j < self.num_bits() {
                    assert(self.bytes()[j / 8] == 0u8);
                    let s = (j % 8) as u8;
                    lemma_byte_bits(0u8, 0, 0, s);
                }
            }
        }
    }

    fn fill_bytes(&mut self, value: u8)
        ensures
            final(self).bytes() == Seq::new(old(self).bytes().len(), |i: int| value),
            final(self).cols() == old(self).cols(),
            final(self).rows() == old(self).rows(),
    {
        let mut i: usize = 0;
        while i < self.bits.len()
            invariant
                i <= self.bits@.len(),
                self.bits@.len() == old(self).bits@.len(),
                self.n_cols == old(self).n_cols,
                self.n_rows == old(self).n_rows,
                forall|j: int| 0 <= j < i ==> #[trigger] self.bits@[j] == value,
            decreases self.bits@.len() - i,
        {
            self.bits.set(i, value);
            i = i + 1;
        }
        proof {
            assert(self.bytes() =~= Seq::new(old(self).bytes().len(), |i: int| value));
        }
    }

    /// Resize the BitMask; a new size clears all bits
    pub fn set_size(&mut self, n_cols: usize, n_rows: usize)
        requires
            old(self).wf(),
            n_cols * n_rows + 7 <= usize::MAX,
        ensures
            final(self).wf(),
            final(self).cols() == n_cols,
            final(self).rows() == n_rows,
            final(self).bytes() == if n_cols == old(self).cols() && n_rows == old(self).rows() {
                old(self).bytes()
            } else {
                Seq::new(bytes_for_bits((n_cols * n_rows) as nat), |i: int| 0u8)
            },
    {
        if n_cols != self.n_cols || n_rows != self.n_rows {
            *self = Self::with_size(n_cols, n_rows);
        }
    }

    /// Count the number of valid bits (1s)
    pub fn count_valid_bits(&self) -> (n: usize)
        requires
            self.wf(),
        ensures
            n == count_set(self.bytes(), 0, self.num_bits() as int),
    {
        let num_bits_hex: [u8; 16] = [0, 1, 1, 2, 1, 2, 2, 3, 1, 2, 2, 3, 2, 3, 3, 4];
        let mut sum: usize = 0;
        let mut i: usize = 0;
        let num_bytes = self.bits.len();
        while i < num_bytes
            invariant
                num_bytes == self.bits@.len(),
                num_bytes == bytes_for_bits(self.num_bits()),
                self.num_bits() + 7 <= usize::MAX,
                i <= num_bytes,
                num_bits_hex@ == seq![0u8, 1, 1, 2, 1, 2, 2, 3, 1, 2, 2, 3, 2, 3, 3, 4],
                sum == count_set(self.bytes(), 0, 8 * i),
            decreases num_bytes - i,
        {
            let byte = self.bits[i];
            proof {
                lemma_byte_bits(byte, 0, 0, 0);
            }
            let lo = num_bits_hex[(byte & 0x0Fu8) as usize];
            let hi = num_bits_hex[(byte >> 4u8) as usize];
            proof {
                lemma_byte_count(self.bytes(), i as int, num_bits_hex@);
                lemma_count_bound(self.bytes(), 0, 8 * i + 8);
                assert(8 * i + 8 <= self.num_bits() + 7);
            }
            sum = sum + (lo + hi) as usize;
            i = i + 1;
        }
        // Subtract the bits past the end of the mask in the last byte
        let total_bits = self.n_cols * self.n_rows;
        let byte_bits = num_bytes * 8;
        let mut k = total_bits;
        proof {
            lemma_count_split(self.bytes(), 0, total_bits as int, byte_bits as int);
        }
        while k < byte_bits
            invariant
                total_bits == self.num_bits(),
                total_bits <= k <= byte_bits,
                byte_bits == 8 * self.bits@.len(),
                sum + count_set(self.bytes(), total_bits as int, k as int) == count_set(
                    self.bytes(),
                    0,
                    byte_bits as int,
                ),
                count_set(self.bytes(), 0, byte_bits as int) == count_set(
                    self.bytes(),
                    0,
                    total_bits as int,
                ) + count_set(self.bytes(), total_bits as int, byte_bits as int),
            decreases byte_bits - k,
        {
            proof {
                lemma_bit_of(k);
                lemma_count_split(self.bytes(), total_bits as int, k as int, byte_bits as int);
                lemma_count_split(self.bytes(), total_bits as int, k + 1, byte_bits as int);
            }
            if (self.bits[k >> 3usize] & Self::bit(k)) != 0 {
                sum = sum - 1;
            }
            k = k + 1;
        }
        sum
    }

    /// Find the next valid bit starting from k (inclusive)
    /// Returns -1 if there is no valid bit after k
    pub fn next_valid_bit(&self, k: i64) -> (r: i64)
        requires
            self.wf(),
            self.num_bits() <= i64::MAX,
        ensures
            k < 0 ==> r == -1,
            k >= 0 ==> r == -1 || (k <= r && self.valid(r as int)),
            k >= 0 ==> forall|j: int|
                k <= j < (if r == -1 {
                    self.num_bits() as int
                } else {
                    r as int
                }) ==> !#[trigger] self.valid(j),
    {
        let total = self.n_cols * self.n_rows;
        if k < 0 || k as u64 >= total as u64 {
            return -1;
        }
        let k = k as usize;
        proof {
            lemma_bit_of(k);
        }
        let s = (k & 7usize) as u8;
        let mut byte = self.bits[k >> 3usize] & (0xFFu8 >> s);
        let mut start = k;
        proof {
            assert forall|p: int| k <= p < 8 * (k / 8) + 8 implies #[trigger] mask_bit(self.bytes(), p)
                == (byte & bit_in_byte(p) != 0) by {
                assert(p / 8 == k / 8);
                lemma_masked_bit(self.bytes()[k as int / 8], s, (p % 8) as u8);
            }
            lemma_masked_high(self.bytes()[k as int / 8], s);
        }
        if byte == 0 {
            // Move along the bytes until we hit something
            let mut i = (k >> 3usize) + 1;
            let num_bytes = self.bits.len();
            proof {
                assert forall|p: int| k <= p < 8 * i implies !(#[trigger] mask_bit(self.bytes(), p)) by {
                    lemma_zero_byte_bit(p);
                }
            }
            while i < num_bytes && self.bits[i] == 0
                invariant
                    num_bytes == self.bits@.len(),
                    k / 8 < i <= num_bytes,
                    forall|p: int| k <= p < 8 * i ==> !(#[trigger] mask_bit(self.bytes(), p)),
                decreases num_bytes - i,
            {
                proof {
                    assert forall|p: int| k <= p < 8 * (i + 1) implies !(#[trigger] mask_bit(
                        self.bytes(),
                        p,
                    )) by {
                        if p >= 8 * i {
                            assert(p / 8 == i);
                            lemma_zero_byte_bit(p);
                        }
                    }
                }
                i = i + 1;
            }
            if i >= num_bytes {
                proof {
                    assert forall|j: int| k <= j < self.num_bits() implies !#[trigger] self.valid(j) by {
                        assert(j < 8 * num_bytes);
                    }
                }
                return -1;
            }
            start = i * 8;
            byte = self.bits[i];
            proof {
                lemma_byte_bits(byte, 0, 0, 0);
                assert forall|p: int| start <= p < start + 8 implies #[trigger] mask_bit(self.bytes(), p)
                    == (byte & bit_in_byte(p) != 0) by {
                    assert(p / 8 == i);
                }
            }
        }
        // Search this byte starting at start
        let ghost s0: u8 = (start % 8) as u8;
        let ghost byte_end = 8 * (start / 8) + 8;
        let mut k_curr = start;
        let k_end = if start + 8 < total {
            start + 8
        } else {
            total
        };
        while k_curr < k_end && (byte & Self::bit(k_curr)) == 0
            invariant
                k <= start <= k_curr <= k_end,
                k_end <= total,
                total == self.num_bits(),
                k_end <= start + 8,
                byte != 0,
                s0 == start % 8,
                byte_end == 8 * (start / 8) + 8,
                byte & !(0xFFu8 >> s0) == 0,
                k_curr <= byte_end,
                forall|p: int| start <= p < byte_end ==> #[trigger] mask_bit(self.bytes(), p) == (byte
                    & bit_in_byte(p) != 0),
                forall|p: int| start <= p < k_curr ==> #[trigger] bit_in_byte(p) & byte == 0,
                forall|p: int| k <= p < start ==> !(#[trigger] mask_bit(self.bytes(), p)),
            decreases k_end - k_curr,
        {
            proof {
                if k_curr == byte_end {
                    lemma_scanned_byte_is_zero(byte, s0, start as int, k_curr as int);
                }
                lemma_and_comm(byte, bit_in_byte(k_curr as int));
            }
            k_curr = k_curr + 1;
        }
        if k_curr < k_end {
            proof {
                if k_curr == byte_end {
                    lemma_scanned_byte_is_zero(byte, s0, start as int, k_curr as int);
                }
                assert(byte & bit_in_byte(k_curr as int) != 0);
                assert(mask_bit(self.bytes(), k_curr as int));
                assert forall|j: int| k <= j < k_curr implies !#[trigger] self.valid(j) by {
                    if j >= start {
                        assert(bit_in_byte(j) & byte == 0);
                        lemma_and_comm(byte, bit_in_byte(j));
                    }
                }
            }
            k_curr as i64
        } else {
            proof {
                assert forall|j: int| k <= j < total implies !#[trigger] self.valid(j) by {
                    if j >= start {
                        if j < k_curr {
                            assert(bit_in_byte(j) & byte == 0);
                            lemma_and_comm(byte, bit_in_byte(j));
                        } else {
                            assert(k_curr == start + 8);
                            lemma_scanned_byte_is_zero(byte, s0, start as int, k_curr as int);
                        }
                    }
                }
            }
            -1
        }
    }

    /// Get the bit mask for a given bit position
    fn bit(k: usize) -> (b: Byte)
        ensures
            b == bit_in_byte(k as int),
    {
        proof {
            lemma_bit_of(k);
        }
        0x80u8 >> ((k & 7usize) as u8)
    }

    /// Clear the BitMask
    pub fn clear(&mut self)
        ensures
            final(self).wf(),
            final(self).cols() == 0,
            final(self).rows() == 0,
            final(self).bytes() == Seq::<u8>::empty(),
    {
        self.bits.clear();
        self.n_cols = 0;
        self.n_rows = 0;
    }
}

impl Default for BitMask {
    fn default() -> (m: Self)
        ensures
            m.wf(),
            m.cols() == 0,
            m.rows() == 0,
            m.bytes() == Seq::<u8>::empty(),
    {
        Self::new()
    }
}

proof fn lemma_bit_of(k: usize)
    ensures
        k >> 3usize == k / 8,
        k & 7usize == k % 8,
{
    assert(k >> 3usize == k / 8 && k & 7usize == k % 8) by (bit_vector);
}

/// When every bit of a byte from `start` up to the end of its byte was found clear,
/// and the bits before `start` were masked off, the byte is zero.
proof fn lemma_scanned_byte_is_zero(byte: u8, s0: u8, start: int, end: int)
    requires
        start >= 0,
        s0 == start % 8,
        end == 8 * (start / 8) + 8,
        byte & !(0xFFu8 >> s0) == 0,
        forall|p: int| start <= p < end ==> #[trigger] bit_in_byte(p) & byte == 0,
    ensures
        byte == 0,
{
    assert forall|t: u8| s0 <= t < 8 implies #[trigger] ((0x80u8 >> t) & byte) == 0 by {
        let p = 8 * (start / 8) + t;
        assert(p % 8 == t);
        assert(bit_in_byte(p) & byte == 0);
    }
    lemma_byte_zero(byte, s0);
}

proof fn lemma_and_comm(a: u8, b: u8)
    ensures
        a & b == b & a,
{
    lemma_byte_bits(a, b, 0, 0);
}

/// Single-bit facts about a byte: selecting, masking off the leading bits, and
/// clearing, as the scans and counts over a mask use them.
proof fn lemma_byte_bits(b: u8, c: u8, s: u8, t: u8)
    ensures
        b & c == c & b,
        b & 0x0Fu8 < 16,
        b >> 4u8 < 16,
        b & !(0xFFu8 >> 0u8) == 0,
        t < 8 ==> 0xFFu8 & (0x80u8 >> t) != 0,
        0u8 & (0x80u8 >> t) == 0,
        s <= t < 8 ==> ((b & (0x80u8 >> t) != 0) == ((b & (0xFFu8 >> s)) & (0x80u8 >> t) != 0)),
        s < 8 ==> (b & (0xFFu8 >> s)) & !(0xFFu8 >> s) == 0,
{
    assert(b & c == c & b && b & 0x0Fu8 < 16 && b >> 4u8 < 16 && b & !(0xFFu8 >> 0u8) == 0 && (t < 8
        ==> 0xFFu8 & (0x80u8 >> t) != 0) && 0u8 & (0x80u8 >> t) == 0 && (s <= t < 8 ==> ((b & (0x80u8
        >> t) != 0) == ((b & (0xFFu8 >> s)) & (0x80u8 >> t) != 0))) && (s < 8 ==> (b & (0xFFu8 >> s))
        & !(0xFFu8 >> s) == 0)) by (bit_vector);
}

/// At most `hi - lo` positions of `lo .. hi` are set.
pub proof fn lemma_count_bound(bits: Seq<u8>, lo: int, hi: int)
    requires
        lo <= hi,
    ensures
        count_set(bits, lo, hi) <= hi - lo,
    decreases hi - lo,
{
    if hi > lo {
        lemma_count_bound(bits, lo, hi - 1);
    }
}

proof fn lemma_masked_bit(b: u8, s: u8, t: u8)
    requires
        s <= t < 8,
    ensures
        (b & (0x80u8 >> t) != 0) == ((b & (0xFFu8 >> s)) & (0x80u8 >> t) != 0),
{
    lemma_byte_bits(b, 0, s, t);
}

proof fn lemma_masked_high(b: u8, s: u8)
    requires
        s < 8,
    ensures
        (b & (0xFFu8 >> s)) & !(0xFFu8 >> s) == 0,
{
    lemma_byte_bits(b, 0, s, s);
}

proof fn lemma_zero_byte_bit(p: int)
    ensures
        0u8 & bit_in_byte(p) == 0,
{
    lemma_byte_bits(0u8, 0, 0, (p % 8) as u8);
}

proof fn lemma_byte_zero(b: u8, s: u8)
    requires
        s < 8,
        b & !(0xFFu8 >> s) == 0,
        forall|t: u8| s <= t < 8 ==> #[trigger] ((0x80u8 >> t) & b) == 0,
    ensures
        b == 0,
{
    let f0 = (0x80u8 >> 0u8) & b;
    let f1 = (0x80u8 >> 1u8) & b;
    let f2 = (0x80u8 >> 2u8) & b;
    let f3 = (0x80u8 >> 3u8) & b;
    let f4 = (0x80u8 >> 4u8) & b;
    let f5 = (0x80u8 >> 5u8) & b;
    let f6 = (0x80u8 >> 6u8) & b;
    let f7 = (0x80u8 >> 7u8) & b;
    assert(b == 0) by (bit_vector)
        requires
            s < 8,
            b & !(0xFFu8 >> s) == 0,
            s <= 0 ==> (0x80u8 >> 0u8) & b == 0,
            s <= 1 ==> (0x80u8 >> 1u8) & b == 0,
            s <= 2 ==> (0x80u8 >> 2u8) & b == 0,
            s <= 3 ==> (0x80u8 >> 3u8) & b == 0,
            s <= 4 ==> (0x80u8 >> 4u8) & b == 0,
            s <= 5 ==> (0x80u8 >> 5u8) & b == 0,
            s <= 6 ==> (0x80u8 >> 6u8) & b == 0,
            s <= 7 ==> (0x80u8 >> 7u8) & b == 0,
    ;
}

proof fn lemma_set_bit(old_byte: u8, k: int, j: int)
    requires
        k >= 0,
        j >= 0,
    ensures
        j / 8 == k / 8 ==> ((old_byte | bit_in_byte(k)) & bit_in_byte(j) != 0) == ((old_byte
            & bit_in_byte(j) != 0) || j == k),
{
    if j / 8 == k / 8 {
        let s = (k % 8) as u8;
        let t = (j % 8) as u8;
        assert(s < 8 && t < 8 ==> (((old_byte | (0x80u8 >> s)) & (0x80u8 >> t) != 0) == ((old_byte
            & (0x80u8 >> t) != 0) || s == t))) by (bit_vector);
        if s == t {
            assert(j == k);
        }
    }
}

proof fn lemma_clear_bit(old_byte: u8, k: int, j: int)
    requires
        k >= 0,
        j >= 0,
    ensures
        j / 8 == k / 8 ==> ((old_byte & !bit_in_byte(k)) & bit_in_byte(j) != 0) == ((old_byte
            & bit_in_byte(j) != 0) && j != k),
{
    if j / 8 == k / 8 {
        let s = (k % 8) as u8;
        let t = (j % 8) as u8;
        assert(s < 8 && t < 8 ==> (((old_byte & !(0x80u8 >> s)) & (0x80u8 >> t) != 0) == ((old_byte
            & (0x80u8 >> t) != 0) && s != t))) by (bit_vector);
        if s == t {
            assert(j == k);
        }
    }
}

/// Counting over `lo .. hi` is counting over `lo .. mid` and `mid .. hi`.
pub proof fn lemma_count_split(bits: Seq<u8>, lo: int, mid: int, hi: int)
    requires
        lo <= mid <= hi,
    ensures
        count_set(bits, lo, hi) == count_set(bits, lo, mid) + count_set(bits, mid, hi),
    decreases hi - mid,
{
    if hi > mid {
        lemma_count_split(bits, lo, mid, hi - 1);
    }
}

proof fn lemma_byte_count(bits: Seq<u8>, i: int, table: Seq<u8>)
    requires
        0 <= i < bits.len(),
        table == seq![0u8, 1, 1, 2, 1, 2, 2, 3, 1, 2, 2, 3, 2, 3, 3, 4],
    ensures
        count_set(bits, 0, 8 * i + 8) == count_set(bits, 0, 8 * i) + table[(bits[i] & 0x0Fu8) as int]
            + table[(bits[i] >> 4u8) as int],
{
    let b = bits[i];
    lemma_count_split(bits, 0, 8 * i, 8 * i + 8);
    reveal_with_fuel(count_set, 9);
    assert forall|t: int| 0 <= t < 8 implies #[trigger] mask_bit(bits, 8 * i + t) == (b & (0x80u8
        >> (t as u8)) != 0) by {
        assert((8 * i + t) / 8 == i);
        assert((8 * i + t) % 8 == t);
    }
    let c = count_set(bits, 8 * i, 8 * i + 8);
    assert(c == (if b & 0x80u8 != 0 { 1int } else { 0 }) + (if b & 0x40u8 != 0 { 1int } else { 0 }) + (
    if b & 0x20u8 != 0 { 1int } else { 0 }) + (if b & 0x10u8 != 0 { 1int } else { 0 }) + (if b & 0x08u8
        != 0 { 1int } else { 0 }) + (if b & 0x04u8 != 0 { 1int } else { 0 }) + (if b & 0x02u8 != 0 {
        1int
    } else { 0 }) + (if b & 0x01u8 != 0 { 1int } else { 0 })) by {
        assert(0x80u8 >> 0u8 == 0x80u8 && 0x80u8 >> 1u8 == 0x40u8 && 0x80u8 >> 2u8 == 0x20u8 && 0x80u8
            >> 3u8 == 0x10u8 && 0x80u8 >> 4u8 == 0x08u8 && 0x80u8 >> 5u8 == 0x04u8 && 0x80u8 >> 6u8
            == 0x02u8 && 0x80u8 >> 7u8 == 0x01u8) by (bit_vector);
        assert(mask_bit(bits, 8 * i + 0) == (b & (0x80u8 >> 0u8) != 0));
        assert(mask_bit(bits, 8 * i + 1) == (b & (0x80u8 >> 1u8) != 0));
        assert(mask_bit(bits, 8 * i + 2) == (b & (0x80u8 >> 2u8) != 0));
        assert(mask_bit(bits, 8 * i + 3) == (b & (0x80u8 >> 3u8) != 0));
        assert(mask_bit(bits, 8 * i + 4) == (b & (0x80u8 >> 4u8) != 0));
        assert(mask_bit(bits, 8 * i + 5) == (b & (0x80u8 >> 5u8) != 0));
        assert(mask_bit(bits, 8 * i + 6) == (b & (0x80u8 >> 6u8) != 0));
        assert(mask_bit(bits, 8 * i + 7) == (b & (0x80u8 >> 7u8) != 0));
    }
    assert(b & 0x0Fu8 < 16 && b >> 4u8 < 16 && (b & 0x0Fu8) & 8u8 == b & 0x08u8 && (b & 0x0Fu8) & 4u8
        == b & 0x04u8 && (b & 0x0Fu8) & 2u8 == b & 0x02u8 && (b & 0x0Fu8) & 1u8 == b & 0x01u8 && ((b
        >> 4u8) & 8u8 != 0) == (b & 0x80u8 != 0) && ((b >> 4u8) & 4u8 != 0) == (b & 0x40u8 != 0) && ((b
        >> 4u8) & 2u8 != 0) == (b & 0x20u8 != 0) && ((b >> 4u8) & 1u8 != 0) == (b & 0x10u8 != 0))
        by (bit_vector);
    lemma_nibble_count(b & 0x0Fu8, table);
    lemma_nibble_count(b >> 4u8, table);
}

proof fn lemma_nibble_count(x: u8, table: Seq<u8>)
    requires
        x < 16,
        table == seq![0u8, 1, 1, 2, 1, 2, 2, 3, 1, 2, 2, 3, 2, 3, 3, 4],
    ensures
        table[x as int] == (if x & 8u8 != 0 { 1int } else { 0 }) + (if x & 4u8 != 0 { 1int } else { 0 })
            + (if x & 2u8 != 0 { 1int } else { 0 }) + (if x & 1u8 != 0 { 1int } else { 0 }),
{
    assert((x & 8u8 != 0) == (x >= 8) && (x & 4u8 != 0) == (x % 8 >= 4) && (x & 2u8 != 0) == (x % 4
        >= 2) && (x & 1u8 != 0) == (x % 2 == 1)) by (bit_vector)
        requires
            x < 16,
    ;
    if x < 8 {
        if x < 4 {
            if x < 2 {
                if x == 0 {
                } else {
                }
            } else if x == 2 {
            } else {
            }
        } else if x < 6 {
            if x == 4 {
            } else {
            }
        } else if x == 6 {
        } else {
        }
    } else if x < 12 {
        if x < 10 {
            if x == 8 {
            } else {
            }
        } else if x == 10 {
        } else {
        }
    } else if x < 14 {
        if x == 12 {
        } else {
        }
    } else if x == 14 {
    } else {
    }
}

} // verus!
