//! Huffman coding implementation
//!
//! Code lengths come from the usual Huffman construction: the two lightest
//! groups of symbols are merged until one group is left, and every merge makes
//! the codes of the merged symbols one bit longer. Of two groups of the same
//! weight, the one that comes first in the list of groups is taken first; a
//! merged group goes to the end of the list. The codes are then made
//! canonical: longer codes first, and among codes of one length the smaller
//! symbol first.
//!
//! Decoding reads the code lengths written ahead of the codes, makes the codes
//! canonical again, and reads the symbols bit by bit. Huffman code lengths fill
//! the code space exactly (Kraft's equality), canonical codes of such lengths
//! are prefix-free, and so decoding what was encoded gives the bytes back.
use vstd::prelude::*;
use crate::bit_math::{le_bytes, le_value};
use crate::bit_stuffer2::{BitStuffer2, simple_encoding, simple_encodable, lemma_bit_width_shift,
    simple_decoding, block_len};
use crate::blob::{push_u32, read_u32};
use crate::error::{LepccError, Result, failed, is_failed};
use crate::types::Byte;

verus! {

/// Histograms must be shorter than this.
pub const MAX_HISTO_SIZE: usize = 32768;

/// Huffman coding implementation
pub struct Huffman {
    max_histo_size: usize,
    code_table: Vec<(u16, u32)>,
    max_num_bits_lut: usize,
}

/// A group of symbols under construction: its weight and its symbols.
struct HuffmanNode {
    weight: i64,
    symbols: Vec<usize>,
}

/// The weight and the symbols of a group.
spec fn group_view(n: HuffmanNode) -> (int, Seq<usize>) {
    (n.weight as int, n.symbols@)
}

impl HuffmanNode {
    /// A group of one symbol that occurs `weight` times.
    fn new_leaf(value: usize, weight: i64) -> (n: Self)
        ensures
            group_view(n) == (weight as int, seq![value]),
    {
        let mut symbols: Vec<usize> = Vec::new();
        symbols.push(value);
        HuffmanNode { weight, symbols }
    }

    /// The group of the symbols of `left` and then those of `right`.
    fn new_internal(left: HuffmanNode, right: HuffmanNode) -> (n: Self)
        requires
            i64::MIN <= left.weight + right.weight <= i64::MAX,
        ensures
            group_view(n) == (left.weight + right.weight, left.symbols@ + right.symbols@),
    {
        let mut symbols = left.symbols;
        let mut other = right.symbols;
        symbols.append(&mut other);
        HuffmanNode { weight: left.weight + right.weight, symbols }
    }
}

// --- the code table -----------------------------------------------------------
/// The code length of every entry of a code table.
pub open spec fn table_lengths(t: Seq<(u16, u32)>) -> Seq<u16> {
    Seq::new(t.len(), |i: int| t[i].0)
}

/// Position of the first entry with a code.
pub open spec fn first_coded(t: Seq<(u16, u32)>, i: int) -> int
    decreases t.len() - i,
{
    if i >= t.len() || i < 0 {
        t.len() as int
    } else if t[i].0 != 0 {
        i
    } else {
        first_coded(t, i + 1)
    }
}

/// Position of the last entry with a code at or before `i` (0 when there is none).
pub open spec fn last_coded(t: Seq<(u16, u32)>, i: int) -> int
    decreases i,
{
    if i <= 0 {
        0
    } else if t[i].0 != 0 {
        i
    } else {
        last_coded(t, i - 1)
    }
}

/// The range `(i0, i1)` of entries from the first to the last with a code, or
/// `None` for a table that is empty, too long, or without any code.
pub open spec fn code_range(t: Seq<(u16, u32)>) -> Option<(int, int)> {
    if t.len() == 0 || t.len() >= MAX_HISTO_SIZE {
        None
    } else if first_coded(t, 0) >= t.len() {
        None
    } else {
        Some((first_coded(t, 0), last_coded(t, t.len() - 1) + 1))
    }
}

/// The error reported when a table has no code range.
pub open spec fn code_range_error(t: Seq<(u16, u32)>, e: LepccError) -> bool {
    if t.len() == 0 || t.len() >= MAX_HISTO_SIZE {
        is_failed(e, "Invalid code table"@)
    } else {
        is_failed(e, "Empty code table"@)
    }
}

/// The longest code among the entries `i0 .. i`.
pub open spec fn longest_code(t: Seq<(u16, u32)>, i0: int, i: int) -> nat
    decreases i - i0,
{
    if i <= i0 {
        0
    } else {
        let m = longest_code(t, i0, i - 1);
        if t[i - 1].0 > m {
            t[i - 1].0 as nat
        } else {
            m
        }
    }
}

/// Bytes of the compressed data: the code table, then the codes in 32-bit
/// words, with one spare word.
pub open spec fn compressed_size(t: Seq<(u16, u32)>, histo: Seq<i32>) -> Option<int> {
    if histo.len() == 0 || histo.len() >= MAX_HISTO_SIZE || code_table_bytes(t) is None {
        None
    } else if histo_total(histo, t.len() as int, histo.len() as int) == 0 {
        Some(0)
    } else {
        Some(code_table_bytes(t).unwrap().len() + 4 * ((coded_bits(histo, t, histo.len() as int) + 31)
            / 32 + 1))
    }
}

/// The longest code of a range is the largest of its lengths.
proof fn lemma_longest_is_max(t: Seq<(u16, u32)>, i0: int, i: int)
    requires
        0 <= i0 <= i <= t.len(),
    ensures
        longest_code(t, i0, i) == crate::bit_stuffer2::seq_max(range_lengths(t, i0, i)),
    decreases i - i0,
{
    if i > i0 {
        lemma_longest_is_max(t, i0, i - 1);
        assert(range_lengths(t, i0, i).drop_last() =~= range_lengths(t, i0, i - 1));
    } else {
        assert(range_lengths(t, i0, i).len() == 0);
    }
}

/// Number of counted symbols among the first `k` histogram entries that the table covers.
pub open spec fn histo_total(histo: Seq<i32>, table_len: int, k: int) -> int
    decreases k,
{
    if k <= 0 {
        0
    } else {
        histo_total(histo, table_len, k - 1) + if histo[k - 1] > 0 && k - 1 < table_len {
            histo[k - 1] as int
        } else {
            0
        }
    }
}

/// Number of bits of the codes of the first `k` histogram entries.
pub open spec fn coded_bits(histo: Seq<i32>, t: Seq<(u16, u32)>, k: int) -> int
    decreases k,
{
    if k <= 0 {
        0
    } else {
        coded_bits(histo, t, k - 1) + if histo[k - 1] > 0 && k - 1 < t.len() {
            histo[k - 1] * t[k - 1].0
        } else {
            0
        }
    }
}

impl Huffman {
    /// The code table: the code length and the code of every symbol.
    pub closed spec fn table(self) -> Seq<(u16, u32)> {
        self.code_table@
    }

    /// The limits hold: histograms are shorter than `MAX_HISTO_SIZE`, codes
    /// are shorter than 32 bits.
    pub closed spec fn wf(self) -> bool {
        &&& self.max_histo_size == MAX_HISTO_SIZE
        &&& self.code_table@.len() < MAX_HISTO_SIZE
        &&& forall|i: int| 0 <= i < self.code_table@.len() ==> (#[trigger] self.code_table@[i]).0 <= 31
    }

    /// Create a new Huffman encoder
    pub fn new() -> (h: Self)
        ensures
            h.wf(),
            h.table() == Seq::<(u16, u32)>::empty(),
    {
        Huffman { max_histo_size: MAX_HISTO_SIZE, code_table: Vec::new(), max_num_bits_lut: 12 }
    }

    /// Clear all internal state
    pub fn clear(&mut self)
        requires
            old(self).wf(),
        ensures
            final(self).wf(),
            final(self).table() == Seq::<(u16, u32)>::empty(),
    {
        self.code_table.clear();
    }

    /// The range of entries from the first to the last with a code, and the
    /// longest code among them.
    fn get_range(&self) -> (r: Result<(usize, usize, usize)>)
        requires
            self.wf(),
        ensures
            match r {
                Ok((i0, i1, m)) => code_range(self.table()) == Some((i0 as int, i1 as int)) && m
                    == longest_code(self.table(), i0 as int, i1 as int) && i0 < i1 <= self.table().len(),
                Err(e) => code_range(self.table()) is None && code_range_error(self.table(), e),
            },
    {
        let len = self.code_table.len();
        if len == 0 || len >= self.max_histo_size {
            return Err(failed("Invalid code table"));
        }
        let mut i: usize = 0;
        while i < len && self.code_table[i].0 == 0
            invariant
                len == self.table().len(),
                i <= len,
                first_coded(self.table(), 0) == first_coded(self.table(), i as int),
            decreases len - i,
        {
            i = i + 1;
        }
        let i0 = i;
        if i >= len {
            return Err(failed("Empty code table"));
        }
        let mut k: usize = len - 1;
        proof {
            lemma_last_coded_at_least(self.table(), i0 as int, (len - 1) as int);
        }
        while k > 0 && self.code_table[k].0 == 0
            invariant
                len == self.table().len(),
                k < len,
                i0 <= last_coded(self.table(), k as int),
                last_coded(self.table(), (len - 1) as int) == last_coded(self.table(), k as int),
            decreases k,
        {
            k = k - 1;
        }
        let i1 = k + 1;
        if i1 <= i0 {
            return Err(failed("Invalid code range"));
        }
        let mut max_len: usize = 0;
        let mut j: usize = i0;
        while j < i1
            invariant
                i0 <= j <= i1,
                i1 <= len,
                len == self.table().len(),
                max_len == longest_code(self.table(), i0 as int, j as int),
            decreases i1 - j,
        {
            let l = self.code_table[j].0 as usize;
            if l > max_len {
                max_len = l;
            }
            j = j + 1;
        }
        Ok((i0, i1, max_len))
    }

    /// Index `i` of a table of `size` entries, taken around the end.
    fn wrap_around(&self, i: usize, size: usize) -> (k: usize)
        ensures
            k == if i < size {
                i
            } else {
                (i - size) as usize
            },
    {
        i - if i < size {
            0
        } else {
            size
        }
    }

    /// Bytes of the code table.
    fn compute_num_bytes_code_table(&self) -> (r: Option<i64>)
        requires
            self.wf(),
        ensures
            r is Some <==> code_table_bytes(self.table()) is Some,
            r matches Some(n) ==> n == code_table_bytes(self.table()).unwrap().len() && n <= 0x10000,
    {
        match self.get_range() {
            Ok((i0, i1, max_len)) => {
                let ghost t = self.table();
                let ghost lens = range_lengths(t, i0 as int, i1 as int);
                proof {
                    lemma_longest_is_max(t, i0 as int, i1 as int);
                    assert forall|k: int| 0 <= k < lens.len() implies #[trigger] lens[k] <= 31 by {
                        assert(t[i0 + k].0 <= 31);
                    }
                    crate::bit_stuffer2::lemma_seq_max_le(lens, 31);
                    crate::bit_math::lemma_u32_shifts(max_len as u32, 0);
                    crate::bit_stuffer2::lemma_width_below(max_len as u32, 8);
                    let c = (i1 - i0) as nat;
                    let w = crate::bit_stuffer2::bit_width(max_len as nat);
                    assert((c * w + 7) / 8 <= c + 1) by (nonlinear_arith)
                        requires
                            w <= 8,
                    ;
                    crate::bit_stuffer2::lemma_simple_encoding_len(lens);
                    crate::bit_stuffer2::lemma_le_bytes_len(4, 4);
                    crate::bit_stuffer2::lemma_le_bytes_len(t.len() as u32 as nat, 4);
                    crate::bit_stuffer2::lemma_le_bytes_len(i0 as u32 as nat, 4);
                    crate::bit_stuffer2::lemma_le_bytes_len(i1 as u32 as nat, 4);
                }
                let n = BitStuffer2::compute_num_bytes_needed_simple((i1 - i0) as u32, max_len as u32);
                Some(16 + n as i64)
            },
            Err(_) => None,
        }
    }

    /// Bytes of the data that the histogram counts, coded with the table.
    fn compute_compressed_size(&self, histo: &[i32]) -> (r: Option<i64>)
        requires
            self.wf(),
        ensures
            match r {
                Some(n) => compressed_size(self.table(), histo@) == Some(n as int),
                None => compressed_size(self.table(), histo@) is None,
            },
    {
        if histo.len() == 0 || histo.len() >= self.max_histo_size {
            return None;
        }
        let num_bytes = match self.compute_num_bytes_code_table() {
            Some(n) => n,
            None => {
                return None;
            },
        };
        let mut num_bits: u64 = 0;
        let mut num_elem: u64 = 0;
        let mut i: usize = 0;
        while i < histo.len()
            invariant
                self.wf(),
                i <= histo@.len(),
                histo@.len() < MAX_HISTO_SIZE,
                num_bits == coded_bits(histo@, self.table(), i as int),
                num_elem == histo_total(histo@, self.table().len() as int, i as int),
                num_bits <= i * 0x8000_0000 * 32,
                num_elem <= i * 0x8000_0000,
            decreases histo@.len() - i,
        {
            let count = histo[i];
            if count > 0 && i < self.code_table.len() {
                let l = self.code_table[i].0;
                assert(l <= 31);
                let c64 = count as u64;
                let l64 = l as u64;
                assert(c64 * l64 <= 0x8000_0000 * 32) by (nonlinear_arith)
                    requires
                        c64 < 0x8000_0000,
                        l64 <= 31,
                ;
                assert((i + 1) * 0x8000_0000 * 32 == i * 0x8000_0000 * 32 + 0x8000_0000 * 32) by (nonlinear_arith);
                assert((i + 1) * 0x8000_0000 == i * 0x8000_0000 + 0x8000_0000) by (nonlinear_arith);
                num_bits = num_bits + c64 * l64;
                num_elem = num_elem + c64;
            }
            i = i + 1;
        }
        if num_elem == 0 {
            return Some(0);
        }
        assert(num_bits <= 0x8000 * 0x8000_0000 * 32) by (nonlinear_arith)
            requires
                num_bits <= histo@.len() * 0x8000_0000 * 32,
                histo@.len() < 0x8000,
        ;
        let num_uints = ((num_bits + 31) / 32 + 1) as i64;
        Some(num_bytes + 4 * num_uints)
    }

    /// Decode Huffman-encoded data: the code table written ahead of the codes,
    /// then `num_elements` symbols, each the entry whose code the next bits
    /// hold (the shortest such code, and of codes of one length the first entry).
    pub fn decode(&self, encoded: &[Byte], num_elements: usize) -> (r: Result<Vec<Byte>>)
        ensures
            match r {
                Ok(v) => huffman_decoding(encoded@, num_elements as nat) == Some(v@),
                Err(e) => huffman_decoding(encoded@, num_elements as nat) is None && huffman_decoding_error(
                    encoded@,
                    e,
                ),
            },
            forall|d: Seq<u8>|
                #![trigger huffman_bytes(d)]
                0 < d.len() && d.len() == num_elements && huffman_bytes(d) == Some(encoded@) ==> (r matches Ok(v)
                    && v@ == d),
    {
        let r = if num_elements == 0 {
            Ok(Vec::new())
        } else {
            match read_code_table(encoded) {
                Err(e) => Err(e),
                Ok((t, i0, i1, start)) => {
                    let codes = &encoded[start..encoded.len()];
                    match decode_stream(codes, &t, i0, i1, num_elements) {
                        Some(v) => Ok(v),
                        None => Err(failed("Invalid Huffman code")),
                    }
                },
            }
        };
        proof {
            assert forall|d: Seq<u8>|
                0 < d.len() && d.len() == num_elements && huffman_bytes(d) == Some(encoded@) implies (r matches Ok(
                v,
            ) && v@ == d) by {
                lemma_huffman_roundtrip(d);
            }
        }
        r
    }
}

proof fn lemma_last_coded_at_least(t: Seq<(u16, u32)>, i0: int, k: int)
    requires
        0 <= i0 <= k < t.len(),
        t[i0].0 != 0,
    ensures
        i0 <= last_coded(t, k),
    decreases k,
{
    if k > i0 && t[k].0 == 0 {
        lemma_last_coded_at_least(t, i0, k - 1);
    }
}


// --- code lengths ---------------------------------------------------------------
/// A group of symbols: its weight and its symbols.
pub type Group = (int, Seq<usize>);

/// One group per counted symbol among the first `k` entries, in order of the symbols.
pub open spec fn leaf_groups(histo: Seq<i32>, k: int) -> Seq<Group>
    decreases k,
{
    if k <= 0 {
        Seq::empty()
    } else {
        let p = leaf_groups(histo, k - 1);
        if histo[k - 1] > 0 {
            p.push((histo[k - 1] as int, seq![(k - 1) as usize]))
        } else {
            p
        }
    }
}

/// Position of the first of the lightest among the first `k` groups.
pub open spec fn lightest(g: Seq<Group>, k: int) -> int
    decreases k,
{
    if k <= 1 {
        0
    } else {
        let p = lightest(g, k - 1);
        if g[k - 1].0 < g[p].0 {
            k - 1
        } else {
            p
        }
    }
}

/// The lengths, one longer for each occurrence of a symbol in `syms`.
pub open spec fn lengthen(lens: Seq<nat>, syms: Seq<usize>) -> Seq<nat>
    decreases syms.len(),
{
    if syms.len() == 0 {
        lens
    } else {
        let l = lengthen(lens, syms.drop_last());
        let s = syms.last() as int;
        if s < l.len() {
            l.update(s, l[s] + 1)
        } else {
            l
        }
    }
}

/// Merges the two lightest groups: the merged group goes to the end, and the
/// codes of its symbols get one bit longer.
pub open spec fn merge_step(st: (Seq<Group>, Seq<nat>)) -> (Seq<Group>, Seq<nat>) {
    let g = st.0;
    let a = lightest(g, g.len() as int);
    let g1 = g.remove(a);
    let b = lightest(g1, g1.len() as int);
    let g2 = g1.remove(b);
    (g2.push((g[a].0 + g1[b].0, g[a].1 + g1[b].1)), lengthen(lengthen(st.1, g[a].1), g1[b].1))
}

/// The groups and the lengths after `k` merges.
pub open spec fn merge_steps(st: (Seq<Group>, Seq<nat>), k: nat) -> (Seq<Group>, Seq<nat>)
    decreases k,
{
    if k == 0 {
        st
    } else {
        merge_step(merge_steps(st, (k - 1) as nat))
    }
}

/// Number of counted symbols.
pub open spec fn leaf_count(histo: Seq<i32>) -> nat {
    leaf_groups(histo, histo.len() as int).len()
}

/// The Huffman code length of every symbol (0 for symbols that are not counted).
pub open spec fn huffman_lengths(histo: Seq<i32>) -> Seq<nat> {
    let g = leaf_groups(histo, histo.len() as int);
    merge_steps((g, Seq::new(histo.len(), |i: int| 0nat)), (g.len() - 1) as nat).1
}

/// Total weight of groups.
pub open spec fn weight_sum(g: Seq<Group>) -> int
    decreases g.len(),
{
    if g.len() == 0 {
        0
    } else {
        weight_sum(g.drop_last()) + g.last().0
    }
}

/// Total number of symbols of groups.
pub open spec fn size_sum(g: Seq<Group>) -> int
    decreases g.len(),
{
    if g.len() == 0 {
        0
    } else {
        size_sum(g.drop_last()) + g.last().1.len()
    }
}

proof fn lemma_sums_remove(g: Seq<Group>, i: int)
    requires
        0 <= i < g.len(),
    ensures
        weight_sum(g.remove(i)) == weight_sum(g) - g[i].0,
        size_sum(g.remove(i)) == size_sum(g) - g[i].1.len(),
    decreases g.len(),
{
    if i < g.len() - 1 {
        lemma_sums_remove(g.drop_last(), i);
        assert(g.remove(i).drop_last() =~= g.drop_last().remove(i));
        assert(g.remove(i).last() == g.last());
    } else {
        assert(g.remove(i) =~= g.drop_last());
    }
}

proof fn lemma_sums_nonneg(g: Seq<Group>, i: int)
    requires
        forall|j: int| 0 <= j < g.len() ==> 0 <= (#[trigger] g[j]).0,
        0 <= i < g.len(),
    ensures
        g[i].0 <= weight_sum(g),
        g[i].1.len() <= size_sum(g),
        0 <= weight_sum(g),
        0 <= size_sum(g),
    decreases g.len(),
{
    if g.len() > 1 {
        let t = g.drop_last();
        assert forall|j: int| 0 <= j < t.len() implies 0 <= (#[trigger] t[j]).0 by {
            assert(t[j] == g[j]);
        }
        if i < g.len() - 1 {
            lemma_sums_nonneg(t, i);
            assert(t[i] == g[i]);
        } else {
            lemma_sums_nonneg(t, 0);
            assert(g[i] == g.last());
        }
        assert(weight_sum(g) == weight_sum(t) + g.last().0);
        assert(size_sum(g) == size_sum(t) + g.last().1.len());
    } else {
        assert(g.drop_last().len() == 0);
        assert(weight_sum(g.drop_last()) == 0);
        assert(size_sum(g.drop_last()) == 0);
        assert(g[i] == g.last());
    }
}

/// The weight and size sums of the leaf groups.
proof fn lemma_leaf_groups(histo: Seq<i32>, k: int)
    requires
        0 <= k <= histo.len(),
    ensures
        leaf_groups(histo, k).len() <= k,
        weight_sum(leaf_groups(histo, k)) <= k * 0x8000_0000,
        size_sum(leaf_groups(histo, k)) == leaf_groups(histo, k).len(),
        forall|j: int| 0 <= j < leaf_groups(histo, k).len() ==> 0 <= (#[trigger] leaf_groups(histo, k)[j]).0
            && leaf_groups(histo, k)[j].1.len() == 1 && (leaf_groups(histo, k)[j].1[0] as int) < k,
    decreases k,
{
    if k > 0 {
        lemma_leaf_groups(histo, k - 1);
        let p = leaf_groups(histo, k - 1);
        if histo[k - 1] > 0 {
            assert(p.push((histo[k - 1] as int, seq![(k - 1) as usize])).drop_last() =~= p);
        }
    }
}

/// Position of the first of the lightest groups.
fn lightest_position(groups: &Vec<HuffmanNode>) -> (p: usize)
    requires
        groups@.len() > 0,
    ensures
        p == lightest(groups@.map_values(|n: HuffmanNode| group_view(n)), groups@.len() as int),
        p < groups@.len(),
{
    let ghost g = groups@.map_values(|n: HuffmanNode| group_view(n));
    let mut best: usize = 0;
    let mut i: usize = 1;
    while i < groups.len()
        invariant
            g == groups@.map_values(|n: HuffmanNode| group_view(n)),
            1 <= i <= groups@.len(),
            best == lightest(g, i as int),
            best < i,
        decreases groups@.len() - i,
    {
        if groups[i].weight < groups[best].weight {
            best = i;
        }
        i = i + 1;
    }
    best
}

/// The lengths as numbers.
pub open spec fn lens_view(v: Seq<u32>) -> Seq<nat> {
    v.map_values(|x: u32| x as nat)
}

/// The groups' weights and symbols.
spec fn groups_view(v: Seq<HuffmanNode>) -> Seq<Group> {
    v.map_values(|n: HuffmanNode| group_view(n))
}

/// The Huffman code length of every symbol.
fn code_lengths(histo: &[i32]) -> (lens: Vec<u32>)
    requires
        histo@.len() < MAX_HISTO_SIZE,
        leaf_count(histo@) >= 1,
    ensures
        lens_view(lens@) == huffman_lengths(histo@),
        lens@.len() == histo@.len(),
{
    let n = histo.len();
    let ghost hs = histo@;
    let mut groups: Vec<HuffmanNode> = Vec::new();
    let mut lens: Vec<u32> = Vec::new();
    let mut i: usize = 0;
    while i < n
        invariant
            n == hs.len(),
            hs == histo@,
            i <= n,
            groups_view(groups@) == leaf_groups(hs, i as int),
            lens@ == Seq::new(i as nat, |j: int| 0u32),
        decreases n - i,
    {
        if histo[i] > 0 {
            groups.push(HuffmanNode::new_leaf(i, histo[i] as i64));
        }
        lens.push(0);
        i = i + 1;
        proof {
            assert(groups_view(groups@) =~= leaf_groups(hs, i as int));
            assert(lens@ =~= Seq::new(i as nat, |j: int| 0u32));
        }
    }
    let ghost g0 = leaf_groups(hs, n as int);
    let ghost init = (g0, Seq::new(n as nat, |j: int| 0nat));
    let ghost leaves = g0.len();
    proof {
        lemma_leaf_groups(hs, n as int);
        assert(lens_view(lens@) =~= init.1);
        assert forall|j: int, t: int| 0 <= j < groups@.len() && 0 <= t < groups@[j].symbols@.len() implies (#[trigger] groups@[j].symbols@[t] as int) < n by {
            assert(groups_view(groups@)[j] == group_view(groups@[j]));
        }
        assert forall|j: int| 0 <= j < groups@.len() implies 0 <= (#[trigger] groups@[j]).weight by {
            assert(groups_view(groups@)[j] == group_view(groups@[j]));
        }
    }
    let mut k: usize = 0;
    while groups.len() > 1
        invariant
            n == hs.len(),
            n < MAX_HISTO_SIZE,
            leaves == g0.len(),
            1 <= leaves <= n,
            groups@.len() + k == leaves,
            groups_view(groups@) == merge_steps(init, k as nat).0,
            lens_view(lens@) == merge_steps(init, k as nat).1,
            lens@.len() == n,
            weight_sum(groups_view(groups@)) <= n * 0x8000_0000,
            size_sum(groups_view(groups@)) == leaves,
            forall|j: int| 0 <= j < groups@.len() ==> 0 <= (#[trigger] groups@[j]).weight,
            forall|j: int, t: int| 0 <= j < groups@.len() && 0 <= t < groups@[j].symbols@.len() ==> (#[trigger] groups@[j].symbols@[t] as int) < n,
            forall|j: int| 0 <= j < n ==> #[trigger] lens@[j] <= k * 0x8000,
        decreases groups@.len(),
    {
        let ghost g = groups_view(groups@);
        let ghost old_groups = groups@;
        let a = lightest_position(&groups);
        let ga = groups.remove(a);
        let ghost g1 = g.remove(a as int);
        proof {
            assert(groups_view(groups@) =~= g1);
            assert(g[a as int] == group_view(ga));
            assert(forall|j: int| 0 <= j < g.len() ==> 0 <= (#[trigger] g[j]).0);
            lemma_sums_nonneg(g, a as int);
            lemma_sums_remove(g, a as int);
        }
        let b = lightest_position(&groups);
        let gb = groups.remove(b);
        proof {
            assert(g1[b as int] == group_view(gb));
            assert(forall|j: int| 0 <= j < g1.len() ==> 0 <= (#[trigger] g1[j]).0);
            lemma_sums_nonneg(g1, b as int);
            lemma_sums_remove(g1, b as int);
            assert(ga.symbols@.len() + gb.symbols@.len() <= leaves);
            assert forall|t: int| 0 <= t < ga.symbols@.len() implies (ga.symbols@[t] as int) < lens@.len() by {
                assert(old_groups[a as int] == ga);
            }
            assert forall|t: int| 0 <= t < gb.symbols@.len() implies (gb.symbols@[t] as int) < lens@.len() by {
                assert(old_groups.remove(a as int)[b as int] == gb);
            }
        }
        let ghost lens0 = lens@;
        add_one_to_each(&mut lens, &ga.symbols);
        let ghost lens1 = lens@;
        add_one_to_each(&mut lens, &gb.symbols);
        let ghost sa = ga.symbols@;
        let ghost sb = gb.symbols@;
        groups.push(HuffmanNode::new_internal(ga, gb));
        k = k + 1;
        proof {
            assert(groups_view(groups@) =~= merge_steps(init, k as nat).0);
            assert forall|j: int| 0 <= j < n implies #[trigger] lens@[j] <= k * 0x8000 by {
                assert(lens@[j] <= lens1[j] + sb.len());
                assert(lens1[j] <= lens0[j] + sa.len());
            }
            assert forall|j: int, t: int| 0 <= j < groups@.len() && 0 <= t < groups@[j].symbols@.len() implies (#[trigger] groups@[j].symbols@[t] as int) < n by {
                if j < groups@.len() - 1 {
                    assert(groups@[j] == old_groups.remove(a as int).remove(b as int)[j]);
                } else {
                    assert(groups@[j].symbols@ == sa + sb);
                }
            }
            lemma_sums_push(g1.remove(b as int), (g[a as int].0 + g1[b as int].0, sa + sb));
        }
    }
    proof {
        assert(k + 1 == leaves);
    }
    lens
}

proof fn lemma_sums_push(g: Seq<Group>, x: Group)
    ensures
        weight_sum(g.push(x)) == weight_sum(g) + x.0,
        size_sum(g.push(x)) == size_sum(g) + x.1.len(),
{
    assert(g.push(x).drop_last() =~= g);
}

/// Lengthens the code of each symbol of `syms` by one bit.
fn add_one_to_each(lens: &mut Vec<u32>, syms: &Vec<usize>)
    requires
        forall|t: int| 0 <= t < syms@.len() ==> (syms@[t] as int) < old(lens)@.len(),
        forall|j: int| 0 <= j < old(lens)@.len() ==> old(lens)@[j] + syms@.len() <= u32::MAX,
    ensures
        final(lens)@.len() == old(lens)@.len(),
        lens_view(final(lens)@) == lengthen(lens_view(old(lens)@), syms@),
        forall|j: int| 0 <= j < old(lens)@.len() ==> final(lens)@[j] <= old(lens)@[j] + syms@.len(),
{
    let ghost start = lens@;
    let mut t: usize = 0;
    proof {
        assert(syms@.take(0) =~= Seq::<usize>::empty());
    }
    while t < syms.len()
        invariant
            t <= syms@.len(),
            lens@.len() == start.len(),
            forall|u: int| 0 <= u < syms@.len() ==> (syms@[u] as int) < start.len(),
            forall|j: int| 0 <= j < start.len() ==> start[j] + syms@.len() <= u32::MAX,
            lens_view(lens@) == lengthen(lens_view(start), syms@.take(t as int)),
            forall|j: int| 0 <= j < start.len() ==> lens@[j] <= start[j] + t,
        decreases syms@.len() - t,
    {
        let s = syms[t];
        proof {
            assert(syms@.take(t + 1).drop_last() =~= syms@.take(t as int));
        }
        let v = lens[s];
        proof {
            assert((syms@[t as int] as int) < start.len());
            assert(v <= start[s as int] + t);
        }
        lens.set(s, v + 1);
        t = t + 1;
        proof {
            assert(lens_view(lens@) =~= lengthen(lens_view(start), syms@.take(t as int)));
        }
    }
    proof {
        assert(syms@.take(syms@.len() as int) =~= syms@);
    }
}


// --- canonical codes --------------------------------------------------------------
/// Making the codes of `t` canonical, after the first `p` steps: step `p`
/// visits code length `31 - p / n` and entry `p % n`; a visited entry of that
/// length gets the current code, shifted right by how much shorter it is than
/// the previous one, and the code after it is one more.
pub open spec fn canon_state(t: Seq<(u16, u32)>, p: nat) -> (Seq<(u16, u32)>, u32, nat)
    decreases p,
{
    if p == 0 {
        (t, 0u32, longest_code(t, 0, t.len() as int))
    } else {
        let st = canon_state(t, (p - 1) as nat);
        let n = t.len() as int;
        let len = 31 - (p - 1) / n;
        let i = (p - 1) % n;
        if t[i].0 == len {
            let delta: nat = if st.2 >= len {
                (st.2 - len) as nat
            } else {
                0
            };
            let code = st.1 >> (delta as u32);
            (st.0.update(i, (t[i].0, code)), (code + 1) as u32, (st.2 - delta) as nat)
        } else {
            st
        }
    }
}

/// The table with canonical codes: longer codes first, and among codes of one
/// length the smaller symbol first; every code is the previous one plus one,
/// shifted right by how much shorter it is.
pub open spec fn canonical(t: Seq<(u16, u32)>) -> Seq<(u16, u32)> {
    if t.len() == 0 {
        t
    } else {
        canon_state(t, 31 * t.len()).0
    }
}

/// The first `n` entries of `t`, padded with empty entries.
pub open spec fn resized(t: Seq<(u16, u32)>, n: nat) -> Seq<(u16, u32)> {
    Seq::new(n, |i: int| if i < t.len() { t[i] } else { (0u16, 0u32) })
}

/// The table before its codes are made canonical: the code length of every
/// counted symbol, the other entries as they were.
pub open spec fn leaf_table(t: Seq<(u16, u32)>, histo: Seq<i32>) -> Seq<(u16, u32)> {
    let r = resized(t, histo.len());
    let lens = huffman_lengths(histo);
    Seq::new(histo.len(), |i: int| if histo[i] > 0 { (lens[i] as u16, 0u32) } else { r[i] })
}

/// Codes can be built: the histogram has a valid size and at least two counted symbols.
pub open spec fn codes_computable(histo: Seq<i32>) -> bool {
    0 < histo.len() < MAX_HISTO_SIZE && leaf_count(histo) >= 2
}

/// Every code is shorter than 32 bits.
pub open spec fn lengths_fit(histo: Seq<i32>) -> bool {
    forall|i: int| 0 <= i < histo.len() ==> #[trigger] huffman_lengths(histo)[i] <= 31
}

/// The code table after a successful computation of codes.
pub open spec fn huffman_table(t: Seq<(u16, u32)>, histo: Seq<i32>) -> Seq<(u16, u32)> {
    canonical(leaf_table(t, histo))
}

proof fn lemma_step_position(n: int, len: int, i: int)
    requires
        0 <= i < n,
        1 <= len <= 31,
    ensures
        ((31 - len) * n + i) / n == 31 - len,
        ((31 - len) * n + i) % n == i,
        (31 - len) * n + i + 1 == (31 - len) * n + (i + 1),
        (31 - len) * n + n == (31 - (len - 1)) * n,
{
    vstd::arithmetic::div_mod::lemma_fundamental_div_mod_converse((31 - len) * n + i, n, 31 - len, i);
    assert((31 - len) * n + n == (31 - (len - 1)) * n) by (nonlinear_arith);
}

impl Huffman {
    /// Makes the codes canonical.
    fn convert_codes_to_canonical(&mut self)
        requires
            old(self).wf(),
            old(self).table().len() > 0,
        ensures
            final(self).wf(),
            final(self).table() == canonical(old(self).table()),
            table_lengths(final(self).table()) == table_lengths(old(self).table()),
    {
        let ghost t0 = self.code_table@;
        let n = self.code_table.len();
        let mut max_code_len: usize = 0;
        let mut j: usize = 0;
        while j < n
            invariant
                j <= n,
                n == t0.len(),
                self.code_table@ == t0,
                max_code_len == longest_code(t0, 0, j as int),
            decreases n - j,
        {
            let l = self.code_table[j].0 as usize;
            if l > max_code_len {
                max_code_len = l;
            }
            j = j + 1;
        }
        proof {
            lemma_longest_bound(t0, n as int);
        }
        let mut code: u32 = 0;
        let mut len: u16 = 31;
        while len >= 1
            invariant
                n == t0.len(),
                0 < n < MAX_HISTO_SIZE,
                len <= 31,
                self.wf(),
                table_lengths(self.code_table@) == table_lengths(t0),
                self.code_table@.len() == n,
                (self.code_table@, code, max_code_len as nat) == canon_state(t0, ((31 - len) * n) as nat),
                code <= (31 - len) * n,
                max_code_len <= 31,
                forall|k: int| 0 <= k < n ==> (#[trigger] t0[k]).0 <= 31,
            decreases len,
        {
            let mut i: usize = 0;
            while i < n
                invariant
                    n == t0.len(),
                    0 < n < MAX_HISTO_SIZE,
                    1 <= len <= 31,
                    i <= n,
                    self.wf(),
                    table_lengths(self.code_table@) == table_lengths(t0),
                    self.code_table@.len() == n,
                    (self.code_table@, code, max_code_len as nat) == canon_state(t0, ((31 - len) * n + i) as nat),
                    code <= (31 - len) * n + i,
                    max_code_len <= 31,
                    forall|k: int| 0 <= k < n ==> (#[trigger] t0[k]).0 <= 31,
                decreases n - i,
            {
                proof {
                    lemma_step_position(n as int, len as int, i as int);
                }
                let entry = self.code_table[i];
                proof {
                    assert(table_lengths(self.code_table@)[i as int] == table_lengths(t0)[i as int]);
                }
                if entry.0 == len {
                    let delta: usize = if max_code_len >= len as usize {
                        max_code_len - len as usize
                    } else {
                        0
                    };
                    let ghost c0 = code;
                    code = code >> (delta as u32);
                    proof {
                        assert(code <= c0) by (bit_vector)
                            requires
                                code == c0 >> (delta as u32),
                        ;
                        assert((31 - len) * n + i <= 31 * 0x8000) by (nonlinear_arith)
                            requires
                                1 <= len <= 31,
                                i < n,
                                n < 0x8000,
                        ;
                    }
                    max_code_len = max_code_len - delta;
                    self.code_table.set(i, (entry.0, code));
                    code = code + 1;
                    proof {
                        assert(table_lengths(self.code_table@) =~= table_lengths(t0));
                    }
                }
                i = i + 1;
            }
            proof {
                assert((31 - len) * n + n == (31 - (len - 1)) * n) by (nonlinear_arith);
            }
            len = len - 1;
        }
        proof {
            assert((31 - len) * n == 31 * n);
        }
    }
}

proof fn lemma_longest_bound(t: Seq<(u16, u32)>, k: int)
    requires
        forall|i: int| 0 <= i < t.len() ==> (#[trigger] t[i]).0 <= 31,
        0 <= k <= t.len(),
    ensures
        longest_code(t, 0, k) <= 31,
    decreases k,
{
    if k > 0 {
        lemma_longest_bound(t, k - 1);
    }
}


/// The code table after computing codes for `histo` from table `t`.
pub open spec fn table_after_codes(t: Seq<(u16, u32)>, histo: Seq<i32>) -> Seq<(u16, u32)> {
    if !codes_computable(histo) {
        t
    } else if !lengths_fit(histo) {
        resized(t, histo.len())
    } else {
        huffman_table(t, histo)
    }
}

/// Bytes of the data that `histo` counts, Huffman coded; `None` where no codes
/// can be built.
pub open spec fn huffman_size(t: Seq<(u16, u32)>, histo: Seq<i32>) -> Option<int> {
    if !codes_computable(histo) || !lengths_fit(histo) {
        None
    } else {
        compressed_size(huffman_table(t, histo), histo)
    }
}

proof fn lemma_leaf_count_step(histo: Seq<i32>, i: int)
    requires
        0 <= i < histo.len(),
    ensures
        leaf_groups(histo, i + 1).len() == leaf_groups(histo, i).len() + if histo[i] > 0 {
            1int
        } else {
            0
        },
{
}

impl Huffman {
    /// Compute Huffman codes from histogram
    fn compute_codes(&mut self, histo: &[i32]) -> (r: bool)
        requires
            old(self).wf(),
        ensures
            final(self).wf(),
            r == (codes_computable(histo@) && lengths_fit(histo@)),
            final(self).table() == table_after_codes(old(self).table(), histo@),
    {
        let n = histo.len();
        if n == 0 || n >= self.max_histo_size {
            return false;
        }
        let mut num_leaves: usize = 0;
        let mut i: usize = 0;
        while i < n
            invariant
                n == histo@.len(),
                i <= n,
                num_leaves == leaf_groups(histo@, i as int).len(),
                num_leaves <= i,
            decreases n - i,
        {
            proof {
                lemma_leaf_count_step(histo@, i as int);
            }
            if histo[i] > 0 {
                num_leaves = num_leaves + 1;
            }
            i = i + 1;
        }
        if num_leaves < 2 {
            return false;
        }
        let lens = code_lengths(histo);
        let ghost t_old = self.code_table@;
        // Fill code table
        resize_table(&mut self.code_table, n);
        proof {
            assert forall|m: int| 0 <= m < n implies (#[trigger] self.code_table@[m]).0 <= 31 by {
                if m < t_old.len() {
                    assert(self.code_table@[m] == t_old[m]);
                }
            }
        }
        let mut j: usize = 0;
        while j < n
            invariant
                n == histo@.len(),
                n < MAX_HISTO_SIZE,
                self.max_histo_size == MAX_HISTO_SIZE,
                self.code_table@ == resized(t_old, n as nat),
                t_old == old(self).table(),
                forall|m: int| 0 <= m < n ==> (#[trigger] self.code_table@[m]).0 <= 31,
                codes_computable(histo@),
                j <= n,
                lens_view(lens@) == huffman_lengths(histo@),
                lens@.len() == n,
                forall|k: int| 0 <= k < j ==> #[trigger] huffman_lengths(histo@)[k] <= 31,
            decreases n - j,
        {
            if lens[j] >= 32 {
                proof {
                    assert(lens_view(lens@)[j as int] == lens@[j as int] as nat);
                    assert(!lengths_fit(histo@));
                }
                return false;
            }
            proof {
                assert(lens_view(lens@)[j as int] == lens@[j as int] as nat);
            }
            j = j + 1;
        }
        let mut k: usize = 0;
        while k < n
            invariant
                n == histo@.len(),
                k <= n,
                lens_view(lens@) == huffman_lengths(histo@),
                lens@.len() == n,
                lengths_fit(histo@),
                self.code_table@.len() == n,
                self.max_histo_size == MAX_HISTO_SIZE,
                n < MAX_HISTO_SIZE,
                forall|m: int| 0 <= m < n ==> (#[trigger] self.code_table@[m]).0 <= 31,
                codes_computable(histo@),
                forall|m: int| 0 <= m < n ==> #[trigger] self.code_table@[m] == if m < k {
                    leaf_table(t_old, histo@)[m]
                } else {
                    resized(t_old, n as nat)[m]
                },
            decreases n - k,
        {
            if histo[k] > 0 {
                proof {
                    assert(lens_view(lens@)[k as int] == lens@[k as int] as nat);
                    assert(huffman_lengths(histo@)[k as int] <= 31);
                }
                self.code_table.set(k, (lens[k] as u16, 0));
            }
            k = k + 1;
        }
        proof {
            assert(self.code_table@ =~= leaf_table(t_old, histo@));
        }
        self.convert_codes_to_canonical();
        true
    }

    /// Compute the number of bytes needed to encode data with given histogram
    pub fn compute_num_bytes_needed_to_encode(&mut self, histo: &[i32]) -> (r: Option<i64>)
        requires
            old(self).wf(),
        ensures
            final(self).wf(),
            final(self).table() == table_after_codes(old(self).table(), histo@),
            match r {
                Some(n) => huffman_size(old(self).table(), histo@) == Some(n as int),
                None => huffman_size(old(self).table(), histo@) is None,
            },
    {
        if histo.len() == 0 || histo.len() >= self.max_histo_size {
            return None;
        }
        if !self.compute_codes(histo) {
            return None;
        }
        self.compute_compressed_size(histo)
    }
}

/// Keeps the first `n` entries, padding with empty entries.
fn resize_table(t: &mut Vec<(u16, u32)>, n: usize)
    ensures
        final(t)@ == resized(old(t)@, n as nat),
{
    if n <= t.len() {
        t.truncate(n);
        proof {
            assert(final(t)@ =~= resized(old(t)@, n as nat));
        }
    } else {
        while t.len() < n
            invariant
                old(t)@.len() <= t@.len() <= n,
                forall|i: int| 0 <= i < t@.len() ==> #[trigger] t@[i] == resized(old(t)@, n as nat)[i],
            decreases n - t@.len(),
        {
            t.push((0u16, 0u32));
        }
        proof {
            assert(t@ =~= resized(old(t)@, n as nat));
        }
    }
}


// --- writing ------------------------------------------------------------------------
/// The code lengths of the entries `i0 .. i1`.
pub open spec fn range_lengths(t: Seq<(u16, u32)>, i0: int, i1: int) -> Seq<u32> {
    Seq::new((i1 - i0) as nat, |k: int| t[i0 + k].0 as u32)
}

/// The code table as written: version 4, the table size, the range of entries
/// with codes, and the bit-stuffed code lengths of that range; `None` where
/// the table has no range or the lengths cannot be bit stuffed.
pub open spec fn code_table_bytes(t: Seq<(u16, u32)>) -> Option<Seq<u8>> {
    match code_range(t) {
        None => None,
        Some(r) => if !simple_encodable(range_lengths(t, r.0, r.1)) {
            None
        } else {
            Some(
                le_bytes(4, 4) + le_bytes(t.len() as u32 as nat, 4) + le_bytes(r.0 as u32 as nat, 4)
                    + le_bytes(r.1 as u32 as nat, 4) + simple_encoding(range_lengths(t, r.0, r.1)),
            )
        },
    }
}

/// One code written into the 32-bit words, most significant bit first: the
/// words, the current word, and the bits of it already used.
pub open spec fn pack_step(st: (Seq<u32>, int, int), e: (u16, u32)) -> (Seq<u32>, int, int) {
    let arr = st.0;
    let idx = st.1;
    let bp = st.2;
    let len = e.0 as int;
    let c = e.1;
    if 32 - bp >= len {
        let arr2 = arr.update(idx, arr[idx] | (c << ((32 - bp - len) as u32)));
        if bp + len == 32 {
            (arr2, idx + 1, 0)
        } else {
            (arr2, idx, bp + len)
        }
    } else {
        let nb = bp + len - 32;
        let arr2 = arr.update(idx, arr[idx] | (c >> (nb as u32)));
        let arr3 = if idx + 1 < arr.len() {
            arr2.update(idx + 1, c << ((32 - nb) as u32))
        } else {
            arr2
        };
        (arr3, idx + 1, nb)
    }
}

/// The words after writing the codes of the first `k` bytes.
pub open spec fn pack_codes(t: Seq<(u16, u32)>, data: Seq<u8>, k: nat) -> (Seq<u32>, int, int)
    decreases k,
{
    if k == 0 {
        (Seq::new(data.len() + 1, |i: int| 0u32), 0, 0)
    } else {
        pack_step(pack_codes(t, data, (k - 1) as nat), t[data[k - 1] as int])
    }
}

/// The words that hold the codes of all bytes, and one empty word more.
pub open spec fn packed_codes(t: Seq<(u16, u32)>, data: Seq<u8>) -> Seq<u32> {
    let st = pack_codes(t, data, data.len());
    st.0.take(st.1 + (if st.2 > 0 {
        1int
    } else {
        0
    }) + 1)
}

/// Every byte has a code.
pub open spec fn all_coded(t: Seq<(u16, u32)>, data: Seq<u8>) -> bool {
    forall|j: int| 0 <= j < data.len() ==> t[data[j] as int].0 != 0
}

/// The little-endian bytes of the words.
pub open spec fn words_le(w: Seq<u32>) -> Seq<u8>
    decreases w.len(),
{
    if w.len() == 0 {
        Seq::empty()
    } else {
        words_le(w.drop_last()) + le_bytes(w.last() as nat, 4)
    }
}

/// Number of occurrences of `v` among the first `k` bytes.
pub open spec fn byte_count(data: Seq<u8>, v: int, k: int) -> int
    decreases k,
{
    if k <= 0 {
        0
    } else {
        byte_count(data, v, k - 1) + if data[k - 1] == v {
            1int
        } else {
            0
        }
    }
}

/// The histogram of the bytes.
pub open spec fn byte_histogram(data: Seq<u8>) -> Seq<i32> {
    Seq::new(256, |v: int| byte_count(data, v, data.len() as int) as i32)
}

impl Huffman {
    /// Write code table to buffer
    fn write_code_table(&self, buffer: &mut Vec<Byte>) -> (r: Result<()>)
        requires
            self.wf(),
        ensures
            r is Ok <==> code_table_bytes(self.table()) is Some,
            r is Ok ==> final(buffer)@ == old(buffer)@ + code_table_bytes(self.table()).unwrap(),
            r matches Err(e) ==> (code_range(self.table()) is None && code_range_error(self.table(), e))
                || (code_range(self.table()) is Some && is_failed(e, "Too many bits needed for bit stuffing"@)),
    {
        // Header: version 4 (canonical codes) and size
        push_u32(buffer, 4);
        push_u32(buffer, self.code_table.len() as u32);
        let (i0, i1, _max_len) = self.get_range()?;
        push_u32(buffer, i0 as u32);
        push_u32(buffer, i1 as u32);
        let mut code_lengths: Vec<u32> = Vec::new();
        let mut i = i0;
        while i < i1
            invariant
                i0 <= i <= i1,
                i1 <= self.table().len(),
                code_lengths@ == range_lengths(self.table(), i0 as int, i1 as int).take(i - i0),
            decreases i1 - i,
        {
            let k = self.wrap_around(i, self.code_table.len());
            code_lengths.push(self.code_table[k].0 as u32);
            i = i + 1;
            proof {
                assert(code_lengths@ =~= range_lengths(self.table(), i0 as int, i1 as int).take(i - i0));
            }
        }
        proof {
            assert(code_lengths@ =~= range_lengths(self.table(), i0 as int, i1 as int));
        }
        let encoded_len = BitStuffer2::encode_simple(code_lengths.as_slice())?;
        append(buffer, &encoded_len);
        Ok(())
    }

    /// Encode byte data using Huffman coding
    pub fn encode(&mut self, data: &[Byte]) -> (r: Result<Vec<Byte>>)
        requires
            old(self).wf(),
            data@.len() <= i32::MAX,
        ensures
            final(self).wf(),
            data@.len() == 0 ==> (r matches Ok(v) && v@ == Seq::<u8>::empty() && final(self).table() == old(self).table()),
            data@.len() > 0 ==> ({
                let h = byte_histogram(data@);
                let t = table_after_codes(old(self).table(), h);
                &&& final(self).table() == t
                &&& !(codes_computable(h) && lengths_fit(h)) ==> (r matches Err(e) && is_failed(e, "Failed to compute Huffman codes"@))
                &&& (codes_computable(h) && lengths_fit(h) && code_table_bytes(t) is None) ==> (r matches Err(e) && ((code_range(t) is None && code_range_error(t, e))
                    || (code_range(t) is Some && is_failed(e, "Too many bits needed for bit stuffing"@))))
                &&& (codes_computable(h) && lengths_fit(h) && code_table_bytes(t) is Some && !all_coded(t, data@)) ==> (r matches Err(e) && is_failed(e, "Invalid Huffman code length"@))
                &&& (codes_computable(h) && lengths_fit(h) && code_table_bytes(t) is Some && all_coded(t, data@)) ==> (r matches Ok(v) && v@ == code_table_bytes(t).unwrap() + words_le(packed_codes(t, data@)))
            }),
            r matches Ok(v) ==> v@.len() <= 4 * data@.len() + 2000,
    {
        if data.len() == 0 {
            return Ok(Vec::new());
        }
        // Build histogram
        let mut histo: Vec<i32> = Vec::new();
        let mut v: usize = 0;
        while v < 256
            invariant
                v <= 256,
                histo@ == Seq::new(v as nat, |u: int| 0i32),
            decreases 256 - v,
        {
            histo.push(0);
            v = v + 1;
            proof {
                assert(histo@ =~= Seq::new(v as nat, |u: int| 0i32));
            }
        }
        let mut j: usize = 0;
        while j < data.len()
            invariant
                j <= data@.len(),
                data@.len() <= i32::MAX,
                histo@.len() == 256,
                forall|u: int| 0 <= u < 256 ==> #[trigger] histo@[u] == byte_count(data@, u, j as int),
                forall|u: int| 0 <= u < 256 ==> 0 <= #[trigger] byte_count(data@, u, j as int) <= j,
            decreases data@.len() - j,
        {
            let b = data[j] as usize;
            proof {
                assert forall|u: int| 0 <= u < 256 implies 0 <= #[trigger] byte_count(data@, u, j + 1) <= j + 1 by {
                    assert(byte_count(data@, u, j + 1) == byte_count(data@, u, j as int) + if data@[j as int] == u { 1int } else { 0 });
                }
            }
            let c = histo[b];
            histo.set(b, c + 1);
            j = j + 1;
        }
        proof {
            assert(histo@ =~= byte_histogram(data@));
        }
        if !self.compute_codes(histo.as_slice()) {
            return Err(failed("Failed to compute Huffman codes"));
        }
        let mut result: Vec<u8> = Vec::new();
        proof {
            lemma_canon_len(leaf_table(old(self).table(), byte_histogram(data@)), (31 * 256) as nat);
        }
        // Write code table
        self.write_code_table(&mut result)?;
        proof {
            assert(result@ =~= Seq::<u8>::empty() + code_table_bytes(self.table()).unwrap());
            lemma_code_table_bytes_len(self.table());
        }
        let ghost t = self.table();
        let ghost d = data@;
        let ghost h = byte_histogram(d);
        proof {
            lemma_canon_len(leaf_table(old(self).table(), h), (31 * 256) as nat);
            assert(t.len() == 256);
        }
        let n = data.len();
        let mut arr: Vec<u32> = Vec::new();
        let mut a: usize = 0;
        while a < n + 1
            invariant
                a <= n + 1,
                n == d.len(),
                n <= i32::MAX,
                arr@ == Seq::new(a as nat, |i: int| 0u32),
            decreases n + 1 - a,
        {
            arr.push(0);
            a = a + 1;
            proof {
                assert(arr@ =~= Seq::new(a as nat, |i: int| 0u32));
            }
        }
        let mut bit_pos: usize = 0;
        let mut uint_idx: usize = 0;
        let mut k: usize = 0;
        while k < n
            invariant
                n == d.len(),
                d == data@,
                n <= i32::MAX,
                t == self.table(),
                t.len() == 256,
                self.wf(),
                k <= n,
                arr@.len() == n + 1,
                (arr@, uint_idx as int, bit_pos as int) == pack_codes(t, d, k as nat),
                bit_pos < 32,
                32 * uint_idx + bit_pos <= 31 * k,
                forall|m: int| 0 <= m < k ==> t[d[m] as int].0 != 0,
                h == byte_histogram(d),
                codes_computable(h) && lengths_fit(h),
                t == table_after_codes(old(self).table(), h),
                code_table_bytes(t) is Some,
                result@ == code_table_bytes(t).unwrap(),
            decreases n - k,
        {
            let entry = self.code_table[data[k] as usize];
            let len = entry.0 as usize;
            let code = entry.1;
            if len == 0 {
                proof {
                    assert(t[d[k as int] as int].0 == 0);
                    assert(!all_coded(t, d));
                }
                return Err(failed("Invalid Huffman code length"));
            }
            proof {
                assert(len <= 31);
                assert(uint_idx < n + 1) by (nonlinear_arith)
                    requires
                        32 * uint_idx + bit_pos <= 31 * k,
                        k < n,
                ;
            }
            if 32 - bit_pos >= len {
                let w = arr[uint_idx] | (code << ((32 - bit_pos - len) as u32));
                arr.set(uint_idx, w);
                bit_pos = bit_pos + len;
                if bit_pos == 32 {
                    uint_idx = uint_idx + 1;
                    bit_pos = 0;
                }
            } else {
                let nb = bit_pos + len - 32;
                let w = arr[uint_idx] | (code >> (nb as u32));
                arr.set(uint_idx, w);
                uint_idx = uint_idx + 1;
                if uint_idx < arr.len() {
                    arr.set(uint_idx, code << ((32 - nb) as u32));
                }
                bit_pos = nb;
            }
            k = k + 1;
        }
        let num_uints = uint_idx + (if bit_pos > 0 {
            1usize
        } else {
            0usize
        }) + 1;
        proof {
            assert(num_uints <= n + 1) by (nonlinear_arith)
                requires
                    32 * uint_idx + bit_pos <= 31 * n,
                    bit_pos < 32,
                    n >= 1,
                    num_uints == uint_idx + (if bit_pos > 0 { 1int } else { 0 }) + 1,
            ;
        }
        let ghost head = result@;
        let mut i: usize = 0;
        while i < num_uints
            invariant
                i <= num_uints,
                num_uints <= arr@.len(),
                result@ == head + words_le(arr@.take(i as int)),
                head == code_table_bytes(t).unwrap(),
                head.len() <= 1400,
                words_le(arr@.take(i as int)).len() == 4 * i,
                num_uints <= n + 1,
                n == d.len(),
            decreases num_uints - i,
        {
            proof {
                assert(arr@.take(i + 1).drop_last() =~= arr@.take(i as int));
            }
            push_u32(&mut result, arr[i]);
            i = i + 1;
            proof {
                crate::bit_stuffer2::lemma_le_bytes_len(arr@[i - 1] as nat, 4);
            }
        }
        proof {
            assert(arr@.take(num_uints as int) =~= packed_codes(t, d));
        }
        Ok(result)
    }
}

/// The code table as written takes at most 1400 bytes.
proof fn lemma_code_table_bytes_len(t: Seq<(u16, u32)>)
    requires
        code_table_bytes(t) is Some,
        t.len() <= 256,
    ensures
        code_table_bytes(t).unwrap().len() <= 1400,
{
    let r = code_range(t).unwrap();
    let i0 = first_coded(t, 0);
    let i1 = last_coded(t, t.len() - 1) + 1;
    assert(r == (i0, i1));
    lemma_first_coded(t, 0);
    assert(i0 < t.len());
    lemma_last_coded_at_least(t, i0, t.len() - 1);
    lemma_last_coded_below(t, t.len() - 1);
    assert(i0 < i1 <= t.len());
    let lens = range_lengths(t, i0, i1);
    assert(lens.len() <= 256);
    crate::bit_stuffer2::lemma_simple_encoding_bound(lens);
    crate::bit_stuffer2::lemma_le_bytes_len(4, 4);
    crate::bit_stuffer2::lemma_le_bytes_len(t.len() as u32 as nat, 4);
    crate::bit_stuffer2::lemma_le_bytes_len(r.0 as u32 as nat, 4);
    crate::bit_stuffer2::lemma_le_bytes_len(r.1 as u32 as nat, 4);
}

proof fn lemma_first_coded(t: Seq<(u16, u32)>, i: int)
    requires
        0 <= i,
    ensures
        first_coded(t, i) <= t.len(),
        i <= t.len() ==> i <= first_coded(t, i),
        first_coded(t, i) < t.len() ==> t[first_coded(t, i)].0 != 0,
    decreases t.len() - i,
{
    if i < t.len() && t[i].0 == 0 {
        lemma_first_coded(t, i + 1);
    }
}

proof fn lemma_last_coded_below(t: Seq<(u16, u32)>, k: int)
    ensures
        last_coded(t, k) <= if k < 0 { 0 } else { k },
    decreases k,
{
    if k > 0 {
        lemma_last_coded_below(t, k - 1);
    }
}

proof fn lemma_canon_len(t: Seq<(u16, u32)>, p: nat)
    requires
        t.len() > 0,
    ensures
        canon_state(t, p).0.len() == t.len(),
        forall|i: int| 0 <= i < t.len() ==> (#[trigger] canon_state(t, p).0[i]).0 == t[i].0,
    decreases p,
{
    if p > 0 {
        lemma_canon_len(t, (p - 1) as nat);
        let n = t.len() as int;
        let i = (p - 1) % n;
        assert(0 <= i < n);
    }
}

/// Appends `bytes`.
fn append(buffer: &mut Vec<u8>, bytes: &Vec<u8>)
    ensures
        final(buffer)@ == old(buffer)@ + bytes@,
{
    let ghost start = buffer@;
    let mut i: usize = 0;
    while i < bytes.len()
        invariant
            i <= bytes@.len(),
            buffer@ == start + bytes@.take(i as int),
        decreases bytes@.len() - i,
    {
        buffer.push(bytes[i]);
        i = i + 1;
        proof {
            assert(buffer@ =~= start + bytes@.take(i as int));
        }
    }
    proof {
        assert(bytes@.take(bytes@.len() as int) =~= bytes@);
    }
}

/// Bits of the codes of the first `k` bytes.
pub open spec fn codes_bits(t: Seq<(u16, u32)>, data: Seq<u8>, k: int) -> int
    decreases k,
{
    if k <= 0 {
        0
    } else {
        codes_bits(t, data, k - 1) + t[data[k - 1] as int].0
    }
}

/// Bits of the codes of the first `k` bytes, counted symbol by symbol over the
/// first `m` symbols.
pub open spec fn counted_bits(t: Seq<(u16, u32)>, data: Seq<u8>, k: int, m: int) -> int
    decreases m,
{
    if m <= 0 {
        0
    } else {
        counted_bits(t, data, k, m - 1) + byte_count(data, m - 1, k) * t[m - 1].0
    }
}

pub(crate) proof fn lemma_words_le_len(w: Seq<u32>)
    ensures
        words_le(w).len() == 4 * w.len(),
    decreases w.len(),
{
    if w.len() > 0 {
        lemma_words_le_len(w.drop_last());
        crate::bit_stuffer2::lemma_le_bytes_len(w.last() as nat, 4);
    }
}

proof fn lemma_counted_step(t: Seq<(u16, u32)>, data: Seq<u8>, k: int, m: int)
    requires
        0 <= k < data.len(),
        0 <= m,
    ensures
        counted_bits(t, data, k + 1, m) == counted_bits(t, data, k, m) + if (data[k] as int) < m {
            t[data[k] as int].0 as int
        } else {
            0
        },
    decreases m,
{
    if m > 0 {
        lemma_counted_step(t, data, k, m - 1);
        let c = byte_count(data, m - 1, k);
        let l = t[m - 1].0 as int;
        if data[k] == m - 1 {
            assert((c + 1) * l == c * l + l) by (nonlinear_arith);
        }
    }
}

proof fn lemma_counted_none(t: Seq<(u16, u32)>, data: Seq<u8>, m: int)
    ensures
        counted_bits(t, data, 0, m) == 0,
    decreases m,
{
    if m > 0 {
        lemma_counted_none(t, data, m - 1);
        assert(byte_count(data, m - 1, 0) == 0);
    }
}

proof fn lemma_counted_all(t: Seq<(u16, u32)>, data: Seq<u8>, k: int)
    requires
        0 <= k <= data.len(),
    ensures
        counted_bits(t, data, k, 256) == codes_bits(t, data, k),
    decreases k,
{
    if k > 0 {
        lemma_counted_all(t, data, k - 1);
        lemma_counted_step(t, data, k - 1, 256);
        assert((data[k - 1] as int) < 256);
        assert(codes_bits(t, data, k) == codes_bits(t, data, k - 1) + t[data[k - 1] as int].0);
        assert(counted_bits(t, data, k - 1 + 1, 256) == counted_bits(t, data, k - 1, 256)
            + t[data[k - 1] as int].0);
        assert(k - 1 + 1 == k);
    } else {
        lemma_counted_none(t, data, 256);
    }
}

proof fn lemma_byte_count_range(data: Seq<u8>, v: int, k: int)
    requires
        0 <= k <= data.len(),
    ensures
        0 <= byte_count(data, v, k) <= k,
    decreases k,
{
    if k > 0 {
        lemma_byte_count_range(data, v, k - 1);
    }
}

proof fn lemma_coded_is_counted(t: Seq<(u16, u32)>, data: Seq<u8>, m: int)
    requires
        0 <= m <= 256,
        t.len() == 256,
        data.len() <= i32::MAX,
    ensures
        coded_bits(byte_histogram(data), t, m) == counted_bits(t, data, data.len() as int, m),
        histo_total(byte_histogram(data), 256, m) == byte_total(data, m),
    decreases m,
{
    if m > 0 {
        lemma_coded_is_counted(t, data, m - 1);
        lemma_byte_count_range(data, m - 1, data.len() as int);
        let h = byte_histogram(data);
        let c = byte_count(data, m - 1, data.len() as int);
        assert(h[m - 1] == c);
        if c == 0 {
            assert(c * t[m - 1].0 == 0);
        }
    }
}

/// Number of the bytes below `m`.
pub open spec fn byte_total(data: Seq<u8>, m: int) -> int
    decreases m,
{
    if m <= 0 {
        0
    } else {
        byte_total(data, m - 1) + byte_count(data, m - 1, data.len() as int)
    }
}

proof fn lemma_byte_total_positive(data: Seq<u8>, m: int)
    requires
        0 < data.len(),
        (data[0] as int) < m <= 256,
    ensures
        byte_total(data, m) > 0,
    decreases m,
{
    let v = data[0] as int;
    lemma_byte_count_range(data, m - 1, data.len() as int);
    if m - 1 > v {
        lemma_byte_total_positive(data, m - 1);
        assert(byte_total(data, m - 1) >= 0) by {
            lemma_byte_total_nonneg(data, m - 1);
        }
    } else {
        lemma_byte_total_nonneg(data, m - 1);
        lemma_first_counted(data, v, data.len() as int);
    }
}

proof fn lemma_byte_total_nonneg(data: Seq<u8>, m: int)
    ensures
        byte_total(data, m) >= 0,
    decreases m,
{
    if m > 0 {
        lemma_byte_total_nonneg(data, m - 1);
        lemma_byte_count_range(data, m - 1, data.len() as int);
    }
}

proof fn lemma_first_counted(data: Seq<u8>, v: int, k: int)
    requires
        1 <= k <= data.len(),
        data[0] == v,
    ensures
        byte_count(data, v, k) >= 1,
    decreases k,
{
    if k > 1 {
        lemma_first_counted(data, v, k - 1);
        lemma_byte_count_range(data, v, k - 1);
    } else {
        assert(byte_count(data, v, 0) == 0);
    }
}

proof fn lemma_counted_occurs(data: Seq<u8>, v: int, i: int, k: int)
    requires
        0 <= i < k <= data.len(),
        data[i] == v,
    ensures
        byte_count(data, v, k) >= 1,
    decreases k,
{
    if k - 1 > i {
        lemma_counted_occurs(data, v, i, k - 1);
    } else {
        lemma_byte_count_range(data, v, k - 1);
    }
}

/// Writing codes of 1 to 31 bits keeps the position at the number of bits written.
proof fn lemma_pack_position(t: Seq<(u16, u32)>, data: Seq<u8>, k: nat)
    requires
        k <= data.len(),
        forall|j: int| 0 <= j < data.len() ==> 1 <= #[trigger] t[data[j] as int].0 <= 31,
    ensures
        ({
            let st = pack_codes(t, data, k);
            &&& st.0.len() == data.len() + 1
            &&& 0 <= st.2 < 32
            &&& 0 <= st.1
            &&& 32 * st.1 + st.2 == codes_bits(t, data, k as int)
            &&& codes_bits(t, data, k as int) <= 31 * k
        }),
    decreases k,
{
    if k > 0 {
        lemma_pack_position(t, data, (k - 1) as nat);
        let st = pack_codes(t, data, (k - 1) as nat);
        let e = t[data[k - 1] as int];
        assert(1 <= e.0 <= 31);
        assert(pack_codes(t, data, k) == pack_step(st, e));
        assert(codes_bits(t, data, k as int) == codes_bits(t, data, k - 1) + e.0);
        let arr = st.0;
        let idx = st.1;
        let bp = st.2;
        let len = e.0 as int;
        assert(32 * idx + bp <= 31 * (k - 1));
        assert(0 <= idx < arr.len());
        let nx = pack_step(st, e);
        if 32 - bp >= len {
            assert(nx.0.len() == arr.len());
            if bp + len == 32 {
                assert(nx.1 == idx + 1 && nx.2 == 0);
            } else {
                assert(nx.1 == idx && nx.2 == bp + len);
            }
        } else {
            let nb = bp + len - 32;
            assert(nx.1 == idx + 1 && nx.2 == nb);
            assert(nx.0.len() == arr.len());
        }
    } else {
        assert(codes_bits(t, data, 0) == 0);
    }
}

/// The codes of all bytes fill one word per 32 bits, rounded up, and one spare word.
proof fn lemma_packed_len(t: Seq<(u16, u32)>, data: Seq<u8>)
    requires
        forall|j: int| 0 <= j < data.len() ==> 1 <= #[trigger] t[data[j] as int].0 <= 31,
    ensures
        packed_codes(t, data).len() == (codes_bits(t, data, data.len() as int) + 31) / 32 + 1,
{
    lemma_pack_position(t, data, data.len());
    let st = pack_codes(t, data, data.len());
    let total = codes_bits(t, data, data.len() as int);
    assert(total == 32 * st.1 + st.2);
    assert((total + 31) / 32 == st.1 + if st.2 > 0 {
        1int
    } else {
        0
    });
    assert(st.1 + (if st.2 > 0 {
        1int
    } else {
        0
    }) + 1 <= st.0.len());
}

/// The size computed from the histogram of non-empty bytes, with a code for
/// every byte, is the length of what `encode` writes for them.
pub proof fn lemma_huffman_size_exact(t: Seq<(u16, u32)>, data: Seq<u8>)
    requires
        0 < data.len() <= i32::MAX,
        huffman_size(t, byte_histogram(data)) is Some,
        all_coded(huffman_table(t, byte_histogram(data)), data),
    ensures
        ({
            let t2 = huffman_table(t, byte_histogram(data));
            &&& table_after_codes(t, byte_histogram(data)) == t2
            &&& code_table_bytes(t2) is Some
            &&& huffman_size(t, byte_histogram(data)) == Some(
                (code_table_bytes(t2).unwrap().len() + words_le(packed_codes(t2, data)).len()) as int,
            )
        }),
{
    let h = byte_histogram(data);
    let t2 = huffman_table(t, h);
    lemma_huffman_table_facts(t, h);
    assert forall|j: int| 0 <= j < data.len() implies 1 <= #[trigger] t2[data[j] as int].0 <= 31 by {
        assert(t2[data[j] as int].0 != 0);
        lemma_counted_occurs(data, data[j] as int, j, data.len() as int);
        lemma_byte_count_range(data, data[j] as int, data.len() as int);
        assert(h[data[j] as int] > 0);
    }
    lemma_packed_len(t2, data);
    lemma_words_le_len(packed_codes(t2, data));
    lemma_coded_is_counted(t2, data, 256);
    lemma_counted_all(t2, data, data.len() as int);
    lemma_byte_total_positive(data, 256);
}

/// The code table built for a histogram of 256 entries has an entry per byte,
/// and every counted byte has its Huffman code length.
proof fn lemma_huffman_table_facts(t: Seq<(u16, u32)>, h: Seq<i32>)
    requires
        h.len() == 256,
        codes_computable(h),
        lengths_fit(h),
    ensures
        huffman_table(t, h).len() == 256,
        forall|v: int|
            0 <= v < 256 && h[v] > 0 ==> (#[trigger] huffman_table(t, h)[v]).0 == huffman_lengths(h)[v]
                && huffman_lengths(h)[v] <= 31,
{
    let lt = leaf_table(t, h);
    lemma_canon_len(lt, (31 * 256) as nat);
    assert forall|v: int| 0 <= v < 256 && h[v] > 0 implies (#[trigger] huffman_table(t, h)[v]).0
        == huffman_lengths(h)[v] && huffman_lengths(h)[v] <= 31 by {
        assert(huffman_lengths(h)[v] <= 31);
        assert(lt[v].0 == huffman_lengths(h)[v] as u16);
    }
}


// --- reading ------------------------------------------------------------------------
/// The header of a code table: version 4, a size below `MAX_HISTO_SIZE`, and a
/// non-empty range of entries within the size whose entries are bytes.
pub open spec fn table_header_ok(e: Seq<u8>) -> bool {
    &&& e.len() >= 16
    &&& le_value(e, 0, 4) == 4
    &&& 0 < le_value(e, 4, 4) < MAX_HISTO_SIZE
    &&& le_value(e, 8, 4) < le_value(e, 12, 4) <= le_value(e, 4, 4)
    &&& le_value(e, 12, 4) <= 256
}

/// The code lengths bit stuffed after the header.
pub open spec fn stored_lengths(e: Seq<u8>) -> Option<Seq<u32>> {
    simple_decoding(e.subrange(16, e.len() as int))
}

/// A code table can be read: its header is in order, and it stores a code
/// length of at most 31 bits for every entry of its range.
pub open spec fn table_readable(e: Seq<u8>) -> bool {
    &&& table_header_ok(e)
    &&& stored_lengths(e) matches Some(ls)
    &&& ls.len() == le_value(e, 12, 4) - le_value(e, 8, 4)
    &&& forall|k: int| 0 <= k < ls.len() ==> #[trigger] ls[k] <= 31
}

/// A table of `size` entries: the code lengths `ls` from entry `i0` on, no
/// code elsewhere.
pub open spec fn lengths_table(size: nat, i0: int, ls: Seq<u32>) -> Seq<(u16, u32)> {
    Seq::new(
        size,
        |k: int|
            if i0 <= k < i0 + ls.len() {
                (ls[k - i0] as u16, 0u32)
            } else {
                (0u16, 0u32)
            },
    )
}

/// The code table read from `e`, its codes made canonical.
pub open spec fn read_table(e: Seq<u8>) -> Seq<(u16, u32)> {
    canonical(lengths_table(le_value(e, 4, 4), le_value(e, 8, 4) as int, stored_lengths(e).unwrap()))
}

/// Where the codes start: after the header and the stored lengths.
pub open spec fn codes_start(e: Seq<u8>) -> int {
    (16 + block_len(e.subrange(16, e.len() as int))) as int
}

/// Bit `q` of the codes: 32-bit little-endian words, the most significant bit first.
pub open spec fn code_bit(s: Seq<u8>, q: int) -> nat {
    let w = q / 32;
    let r = q % 32;
    ((s[4 * w + 3 - r / 8] >> ((7 - r % 8) as u8)) & 1u8) as nat
}

/// The value of the `l` bits from bit `p` on, the first the most significant.
pub open spec fn read_bits(s: Seq<u8>, p: int, l: nat) -> nat
    decreases l,
{
    if l == 0 {
        0
    } else {
        2 * read_bits(s, p, (l - 1) as nat) + code_bit(s, p + l - 1)
    }
}

/// The first entry from `k` on, below `i1`, with code length `l` and code `v`;
/// `i1` when there is none.
pub open spec fn first_with(t: Seq<(u16, u32)>, l: nat, v: nat, k: int, i1: int) -> int
    decreases i1 - k,
{
    if k >= i1 {
        i1
    } else if t[k].0 == l && t[k].1 == v {
        k
    } else {
        first_with(t, l, v, k + 1, i1)
    }
}

/// The symbol whose code starts at bit `p`, trying the lengths from `l` up to
/// 31, and the length of its code; `None` when the whole words of `s` run out
/// first or no length up to 31 gives a code.
pub open spec fn match_symbol(s: Seq<u8>, t: Seq<(u16, u32)>, i0: int, i1: int, p: int, l: nat) -> Option<
    (int, nat),
>
    decreases 32 - l,
{
    if l > 31 || p + l > (s.len() / 4) * 32 {
        None
    } else {
        let k = first_with(t, l, read_bits(s, p, l), i0, i1);
        if k < i1 {
            Some((k, l))
        } else {
            match_symbol(s, t, i0, i1, p, l + 1)
        }
    }
}

/// The first `n` symbols decoded from bit 0 on, and the bit after them.
pub open spec fn decode_symbols(s: Seq<u8>, t: Seq<(u16, u32)>, i0: int, i1: int, n: nat) -> Option<
    (Seq<u8>, int),
>
    decreases n,
{
    if n == 0 {
        Some((Seq::empty(), 0))
    } else {
        match decode_symbols(s, t, i0, i1, (n - 1) as nat) {
            None => None,
            Some(prev) => match match_symbol(s, t, i0, i1, prev.1, 1) {
                None => None,
                Some(m) => Some((prev.0.push(m.0 as u8), prev.1 + m.1)),
            },
        }
    }
}

/// The `n` bytes decoded from a code table and the codes after it; `None`
/// where the table cannot be read or the codes do not give `n` symbols.
pub open spec fn huffman_decoding(e: Seq<u8>, n: nat) -> Option<Seq<u8>> {
    if n == 0 {
        Some(Seq::empty())
    } else if !table_readable(e) {
        None
    } else {
        match decode_symbols(
            e.subrange(codes_start(e), e.len() as int),
            read_table(e),
            le_value(e, 8, 4) as int,
            le_value(e, 12, 4) as int,
            n,
        ) {
            None => None,
            Some(d) => Some(d.0),
        }
    }
}

/// The error reported when Huffman decoding fails.
pub open spec fn huffman_decoding_error(e: Seq<u8>, x: LepccError) -> bool {
    if !table_readable(e) {
        is_failed(x, "Invalid code table"@)
    } else {
        is_failed(x, "Invalid Huffman code"@)
    }
}

/// The table of `size` entries with the code lengths `lens` from entry `i0`
/// on and no code elsewhere, its codes made canonical.
fn canonical_from_lengths(size: usize, i0: usize, lens: &Vec<u32>) -> (t: Vec<(u16, u32)>)
    requires
        0 < size < MAX_HISTO_SIZE,
        i0 + lens@.len() <= size,
        forall|k: int| 0 <= k < lens@.len() ==> #[trigger] lens@[k] <= 31,
    ensures
        t@ == canonical(lengths_table(size as nat, i0 as int, lens@)),
        t@.len() == size,
{
    let ghost want = lengths_table(size as nat, i0 as int, lens@);
    let mut table: Vec<(u16, u32)> = Vec::new();
    let mut k: usize = 0;
    while k < size
        invariant
            k <= size,
            i0 + lens@.len() <= size,
            want == lengths_table(size as nat, i0 as int, lens@),
            table@ == want.take(k as int),
            forall|j: int| 0 <= j < lens@.len() ==> #[trigger] lens@[j] <= 31,
            forall|j: int| 0 <= j < k ==> (#[trigger] table@[j]).0 <= 31,
        decreases size - k,
    {
        if i0 <= k && k < i0 + lens.len() {
            let l = lens[k - i0];
            table.push((l as u16, 0u32));
        } else {
            table.push((0u16, 0u32));
        }
        k = k + 1;
        proof {
            assert(table@ =~= want.take(k as int));
        }
    }
    proof {
        assert(table@ =~= want);
    }
    proof {
        lemma_canon_len(want, (31 * size) as nat);
    }
    let mut h = Huffman { max_histo_size: MAX_HISTO_SIZE, code_table: table, max_num_bits_lut: 12 };
    h.convert_codes_to_canonical();
    h.code_table
}

/// Reads the code table at the start of `e`: the table with canonical codes,
/// its range, and where the codes start.
fn read_code_table(e: &[u8]) -> (r: Result<(Vec<(u16, u32)>, usize, usize, usize)>)
    ensures
        match r {
            Ok((t, i0, i1, start)) => {
                &&& table_readable(e@)
                &&& t@ == read_table(e@)
                &&& i0 == le_value(e@, 8, 4)
                &&& i1 == le_value(e@, 12, 4)
                &&& start == codes_start(e@)
                &&& start <= e@.len()
                &&& i0 < i1 <= t@.len()
                &&& i1 <= 256
            },
            Err(x) => !table_readable(e@) && is_failed(x, "Invalid code table"@),
        },
{
    if e.len() < 16 {
        return Err(failed("Invalid code table"));
    }
    let version = read_u32(e, 0);
    let size = read_u32(e, 4);
    let i0 = read_u32(e, 8);
    let i1 = read_u32(e, 12);
    if version != 4 || size == 0 || size as usize >= MAX_HISTO_SIZE || i0 >= i1 || i1 > size || i1 > 256 {
        return Err(failed("Invalid code table"));
    }
    let rest = &e[16..e.len()];
    proof {
        assert(rest@ == e@.subrange(16, e@.len() as int));
    }
    let lens = match BitStuffer2::decode(rest) {
        Ok(v) => v,
        Err(_) => {
            return Err(failed("Invalid code table"));
        },
    };
    let count = (i1 - i0) as usize;
    if lens.len() != count {
        return Err(failed("Invalid code table"));
    }
    let mut k: usize = 0;
    while k < count
        invariant
            k <= count,
            count == lens@.len(),
            stored_lengths(e@) == Some(lens@),
            forall|j: int| 0 <= j < k ==> #[trigger] lens@[j] <= 31,
        decreases count - k,
    {
        if lens[k] > 31 {
            proof {
                assert(lens@[k as int] > 31);
            }
            return Err(failed("Invalid code table"));
        }
        k = k + 1;
    }
    let h = rest[0];
    let code = h >> 6u8;
    let cs: usize = if code == 2 {
        1
    } else if code == 1 {
        2
    } else {
        4
    };
    let width = (h & 0x1Fu8) as usize;
    proof {
        assert(h & 0x1Fu8 < 32) by (bit_vector);
        assert(count * width <= 256 * 31) by (nonlinear_arith)
            requires
                count <= 256,
                width < 32,
        ;
    }
    let start = 17 + cs + (count * width + 7) / 8;
    proof {
        let d = rest@;
        assert(d[0] == h);
        assert(cs == crate::bit_stuffer2::block_count_size(d));
        assert(width == crate::bit_stuffer2::block_width(d));
        assert(count == crate::bit_stuffer2::block_count(d));
        assert(start == codes_start(e@));
        if width == 0 {
            assert(count * width == 0);
            assert(start == 17 + cs);
        } else {
            assert(crate::bit_stuffer2::block_payload(d).len() >= crate::bit_stuffer2::packed_len(
                count as nat,
                width as nat,
            ));
            assert(crate::bit_stuffer2::block_payload(d).len() == d.len() - 1 - cs);
        }
        assert(start <= e@.len());
        assert(table_readable(e@));
    }
    let t = canonical_from_lengths(size as usize, i0 as usize, &lens);
    Ok((t, i0 as usize, i1 as usize, start))
}

/// The first entry from `i0` on, below `i1`, with code length `l` and code
/// `v`; `i1` when there is none.
fn find_code(t: &Vec<(u16, u32)>, l: u16, v: u32, i0: usize, i1: usize) -> (k: usize)
    requires
        i0 <= i1 <= t@.len(),
    ensures
        k == first_with(t@, l as nat, v as nat, i0 as int, i1 as int),
{
    let mut k = i0;
    while k < i1
        invariant
            i0 <= k <= i1 <= t@.len(),
            first_with(t@, l as nat, v as nat, i0 as int, i1 as int) == first_with(
                t@,
                l as nat,
                v as nat,
                k as int,
                i1 as int,
            ),
        decreases i1 - k,
    {
        let entry = t[k];
        if entry.0 == l && entry.1 == v {
            return k;
        }
        k = k + 1;
    }
    i1
}

/// The position of a bit as a word and a bit within the word.
proof fn lemma_bit_position(q: int, w: int, r: int)
    requires
        q == 32 * w + r,
        0 <= r < 32,
        0 <= w,
    ensures
        q / 32 == w,
        q % 32 == r,
{
    vstd::arithmetic::div_mod::lemma_fundamental_div_mod_converse(q, 32, w, r);
}

/// The symbol whose code starts at bit `32 * w + r` of `s`, with the word and
/// the bit after its code.
fn next_symbol(s: &[u8], t: &Vec<(u16, u32)>, i0: usize, i1: usize, w: usize, r: usize) -> (res: Option<
    (usize, usize, usize),
>)
    requires
        i0 <= i1 <= t@.len(),
        r < 32,
        w <= s@.len() / 4,
    ensures
        match res {
            Some((k, w2, r2)) => {
                &&& match_symbol(s@, t@, i0 as int, i1 as int, 32 * w + r, 1) == Some(
                    (k as int, (32 * w2 + r2 - (32 * w + r)) as nat),
                )
                &&& 32 * w2 + r2 > 32 * w + r
                &&& r2 < 32
                &&& w2 <= s@.len() / 4
                &&& k < i1
            },
            None => match_symbol(s@, t@, i0 as int, i1 as int, 32 * w + r, 1) is None,
        },
{
    let nwords = s.len() / 4;
    let ghost p: int = 32 * w + r;
    let mut v: u32 = 0;
    let mut l: usize = 0;
    let mut cw = w;
    let mut cr = r;
    proof {
        vstd::arithmetic::power2::lemma2_to64();
    }
    while l < 31
        invariant
            l <= 31,
            cr < 32,
            cw <= nwords,
            nwords == s@.len() / 4,
            p == 32 * w + r,
            32 * cw + cr == p + l,
            i0 <= i1 <= t@.len(),
            v == read_bits(s@, p, l as nat),
            v < vstd::arithmetic::power2::pow2(l as nat),
            vstd::arithmetic::power2::pow2(31) == 0x8000_0000,
            match_symbol(s@, t@, i0 as int, i1 as int, p, 1) == match_symbol(
                s@,
                t@,
                i0 as int,
                i1 as int,
                p,
                (l + 1) as nat,
            ),
        decreases 31 - l,
    {
        if cw >= nwords {
            return None;
        }
        assert(s@.len() == s.len());
        proof {
            lemma_bit_position(p + l, cw as int, cr as int);
            assert(4 * cw + 4 <= s@.len()) by (nonlinear_arith)
                requires
                    cw < nwords,
                    nwords == s@.len() / 4,
            ;
            assert(cr / 8 <= 3 && cr % 8 <= 7) by (nonlinear_arith)
                requires
                    cr < 32,
            ;
        }
        let byte = s[4 * cw + 3 - cr / 8];
        let bit = (byte >> ((7 - cr % 8) as u8)) & 1u8;
        proof {
            assert(bit as nat == code_bit(s@, p + l));
            assert(bit <= 1) by (bit_vector)
                requires
                    bit == (byte >> ((7 - cr % 8) as u8)) & 1u8,
            ;
            vstd::arithmetic::power2::lemma_pow2_unfold((l + 1) as nat);
            vstd::arithmetic::power2::lemma_pow2_strictly_increases(l as nat, 31);
        }
        v = 2 * v + bit as u32;
        l = l + 1;
        cr = cr + 1;
        if cr == 32 {
            cr = 0;
            cw = cw + 1;
        }
        let k = find_code(t, l as u16, v, i0, i1);
        if k < i1 {
            return Some((k, cw, cr));
        }
    }
    None
}

/// The first `n` symbols decoded from the codes `s`.
fn decode_stream(s: &[u8], t: &Vec<(u16, u32)>, i0: usize, i1: usize, n: usize) -> (res: Option<Vec<u8>>)
    requires
        i0 <= i1 <= t@.len(),
        i1 <= 256,
    ensures
        match res {
            Some(v) => decode_symbols(s@, t@, i0 as int, i1 as int, n as nat) matches Some(d) && d.0 == v@,
            None => decode_symbols(s@, t@, i0 as int, i1 as int, n as nat) is None,
        },
{
    let mut out: Vec<u8> = Vec::new();
    let mut w: usize = 0;
    let mut r: usize = 0;
    let mut e: usize = 0;
    while e < n
        invariant
            e <= n,
            r < 32,
            w <= s@.len() / 4,
            i0 <= i1 <= t@.len(),
            i1 <= 256,
            decode_symbols(s@, t@, i0 as int, i1 as int, e as nat) == Some((out@, 32 * w + r)),
        decreases n - e,
    {
        match next_symbol(s, t, i0, i1, w, r) {
            None => {
                proof {
                    lemma_decode_fails_on(s@, t@, i0 as int, i1 as int, (e + 1) as nat, n as nat);
                }
                return None;
            },
            Some((k, w2, r2)) => {
                out.push(k as u8);
                w = w2;
                r = r2;
            },
        }
        e = e + 1;
    }
    Some(out)
}

/// Once decoding fails, decoding more symbols fails too.
proof fn lemma_decode_fails_on(s: Seq<u8>, t: Seq<(u16, u32)>, i0: int, i1: int, k: nat, n: nat)
    requires
        k <= n,
        decode_symbols(s, t, i0, i1, k) is None,
    ensures
        decode_symbols(s, t, i0, i1, n) is None,
    decreases n - k,
{
    if k < n {
        lemma_decode_fails_on(s, t, i0, i1, (k + 1) as nat, n);
    }
}


/// Tables with the same code lengths have the same length at every entry.
proof fn lemma_same_length_at(a: Seq<(u16, u32)>, b: Seq<(u16, u32)>, k: int)
    requires
        a.len() == b.len(),
        table_lengths(a) == table_lengths(b),
        0 <= k < a.len(),
    ensures
        a[k].0 == b[k].0,
{
    assert(table_lengths(a)[k] == a[k].0);
    assert(table_lengths(b)[k] == b[k].0);
}

/// The longest code depends only on the code lengths.
proof fn lemma_longest_same_lengths(a: Seq<(u16, u32)>, b: Seq<(u16, u32)>, i0: int, i: int)
    requires
        a.len() == b.len(),
        table_lengths(a) == table_lengths(b),
        0 <= i0,
        i <= a.len(),
    ensures
        longest_code(a, i0, i) == longest_code(b, i0, i),
    decreases i - i0,
{
    if i > i0 {
        lemma_longest_same_lengths(a, b, i0, i - 1);
        lemma_same_length_at(a, b, i - 1);
    }
}

/// The step that visits entry `i` of code length `l`.
proof fn lemma_visit_step(n: int, l: int, i: int, q: int)
    requires
        0 <= i < n,
        1 <= l <= 31,
        0 <= q,
        q % n == i,
        31 - q / n == l,
    ensures
        q == (31 - l) * n + i,
{
    vstd::arithmetic::div_mod::lemma_fundamental_div_mod(q, n);
    assert(n * (q / n) == (31 - l) * n) by (nonlinear_arith)
        requires
            q / n == 31 - l,
    ;
}

/// The step that visits entry `i` of code length `l` comes before the end.
proof fn lemma_visit_before_end(n: int, l: int, i: int)
    requires
        0 <= i < n,
        1 <= l <= 31,
    ensures
        0 <= (31 - l) * n + i < 31 * n,
        ((31 - l) * n + i) % n == i,
        ((31 - l) * n + i) / n == 31 - l,
{
    assert(0 <= (31 - l) * n + i < 31 * n) by (nonlinear_arith)
        requires
            0 <= i < n,
            1 <= l <= 31,
    ;
    vstd::arithmetic::div_mod::lemma_fundamental_div_mod_converse((31 - l) * n + i, n, 31 - l, i);
}

/// Two tables with the same code lengths, made canonical step by step, give
/// the same codes to the entries visited so far.
proof fn lemma_canon_state_agree(a: Seq<(u16, u32)>, b: Seq<(u16, u32)>, p: nat)
    requires
        a.len() == b.len() > 0,
        table_lengths(a) == table_lengths(b),
        forall|i: int| 0 <= i < a.len() ==> (#[trigger] a[i]).0 <= 31,
    ensures
        canon_state(a, p).1 == canon_state(b, p).1,
        canon_state(a, p).2 == canon_state(b, p).2,
        forall|i: int|
            0 <= i < a.len() && 1 <= a[i].0 && (31 - a[i].0) * a.len() + i < p ==> #[trigger] canon_state(
                a,
                p,
            ).0[i] == canon_state(b, p).0[i],
    decreases p,
{
    let n = a.len() as int;
    if p == 0 {
        lemma_longest_same_lengths(a, b, 0, n);
        assert forall|i: int| 0 <= i < n && 1 <= a[i].0 implies (31 - a[i].0) * n + i >= 0 by {
            assert((31 - a[i].0) * n >= 0) by (nonlinear_arith)
                requires
                    a[i].0 <= 31,
                    n > 0,
            ;
        }
    } else {
        lemma_canon_state_agree(a, b, (p - 1) as nat);
        lemma_canon_len(a, (p - 1) as nat);
        lemma_canon_len(b, (p - 1) as nat);
        let len = 31 - (p - 1) / n;
        let j = (p - 1) % n;
        assert(0 <= j < n);
        lemma_same_length_at(a, b, j);
        assert forall|i: int|
            0 <= i < n && 1 <= a[i].0 && (31 - a[i].0) * n + i < p implies #[trigger] canon_state(a, p).0[i]
            == canon_state(b, p).0[i] by {
            lemma_same_length_at(a, b, i);
            if (31 - a[i].0) * n + i == p - 1 {
                lemma_visit_before_end(n, a[i].0 as int, i);
                assert(i == j);
            } else if i == j && a[j].0 == len {
                lemma_visit_step(n, a[i].0 as int, i, p - 1);
            }
        }
    }
}

/// Tables with the same code lengths get the same canonical code at every
/// entry with a code.
proof fn lemma_canonical_same_lengths(a: Seq<(u16, u32)>, b: Seq<(u16, u32)>)
    requires
        a.len() == b.len() > 0,
        table_lengths(a) == table_lengths(b),
        forall|i: int| 0 <= i < a.len() ==> (#[trigger] a[i]).0 <= 31,
    ensures
        canonical(a).len() == a.len(),
        canonical(b).len() == a.len(),
        forall|i: int| 0 <= i < a.len() && a[i].0 != 0 ==> #[trigger] canonical(a)[i] == canonical(b)[i],
{
    let n = a.len() as int;
    lemma_canon_state_agree(a, b, (31 * n) as nat);
    lemma_canon_len(a, (31 * n) as nat);
    lemma_canon_len(b, (31 * n) as nat);
    assert forall|i: int| 0 <= i < n && a[i].0 != 0 implies #[trigger] canonical(a)[i] == canonical(b)[i] by {
        lemma_visit_before_end(n, a[i].0 as int, i);
    }
}

/// Entries before the first and after the last with a code have none.
proof fn lemma_uncoded_outside(t: Seq<(u16, u32)>, i: int)
    requires
        0 <= i < t.len(),
        i < first_coded(t, 0) || i > last_coded(t, t.len() - 1),
    ensures
        t[i].0 == 0,
{
    if i < first_coded(t, 0) {
        lemma_before_first(t, 0, i);
    } else {
        lemma_after_last(t, t.len() - 1, i);
    }
}

proof fn lemma_before_first(t: Seq<(u16, u32)>, k: int, i: int)
    requires
        0 <= k <= i < first_coded(t, k),
        i < t.len(),
    ensures
        t[i].0 == 0,
    decreases i - k,
{
    if k < i {
        lemma_before_first(t, k + 1, i);
    }
}

proof fn lemma_after_last(t: Seq<(u16, u32)>, k: int, i: int)
    requires
        last_coded(t, k) < i <= k < t.len(),
    ensures
        t[i].0 == 0,
    decreases k - i,
{
    if i < k {
        lemma_after_last(t, k - 1, i);
    }
}

/// Reading back a code table as the encoder writes it, followed by anything:
/// the table can be read, its range is the encoder's, the codes start right
/// after it, and every entry with a code has the length and the code that the
/// encoder gave it.
pub proof fn lemma_code_table_read_back(t0: Seq<(u16, u32)>, tail: Seq<u8>)
    requires
        0 < t0.len() <= 256,
        forall|i: int| 0 <= i < t0.len() ==> (#[trigger] t0[i]).0 <= 31,
        code_table_bytes(canonical(t0)) is Some,
    ensures
        ({
            let t = canonical(t0);
            let e = code_table_bytes(t).unwrap() + tail;
            &&& table_readable(e)
            &&& code_range(t) == Some((le_value(e, 8, 4) as int, le_value(e, 12, 4) as int))
            &&& codes_start(e) == code_table_bytes(t).unwrap().len()
            &&& read_table(e).len() == t.len()
            &&& forall|i: int| 0 <= i < t.len() && t[i].0 != 0 ==> #[trigger] read_table(e)[i] == t[i]
            &&& forall|i: int| 0 <= i < t.len() ==> (#[trigger] read_table(e)[i]).0 == t[i].0
        }),
{
    let t = canonical(t0);
    let n = t0.len() as int;
    lemma_canon_len(t0, (31 * n) as nat);
    assert(t.len() == n);
    let r = code_range(t).unwrap();
    let i0 = first_coded(t, 0);
    let i1 = last_coded(t, n - 1) + 1;
    lemma_first_coded(t, 0);
    lemma_last_coded_at_least(t, i0, n - 1);
    lemma_last_coded_below(t, n - 1);
    assert(0 <= i0 < i1 <= n);
    let lens = range_lengths(t, i0, i1);
    let enc = simple_encoding(lens);
    let head = le_bytes(4, 4) + le_bytes(n as u32 as nat, 4) + le_bytes(i0 as u32 as nat, 4) + le_bytes(
        i1 as u32 as nat,
        4,
    );
    let e = code_table_bytes(t).unwrap() + tail;
    crate::bit_stuffer2::lemma_le_bytes_len(4, 4);
    crate::bit_stuffer2::lemma_le_bytes_len(n as u32 as nat, 4);
    crate::bit_stuffer2::lemma_le_bytes_len(i0 as u32 as nat, 4);
    crate::bit_stuffer2::lemma_le_bytes_len(i1 as u32 as nat, 4);
    assert(e =~= head + enc + tail);
    vstd::arithmetic::power2::lemma2_to64();
    assert(e.subrange(0, 4) =~= le_bytes(4, 4));
    assert(e.subrange(4, 8) =~= le_bytes(n as u32 as nat, 4));
    assert(e.subrange(8, 12) =~= le_bytes(i0 as u32 as nat, 4));
    assert(e.subrange(12, 16) =~= le_bytes(i1 as u32 as nat, 4));
    crate::bit_stuffer2::lemma_le_bytes_value(4, 4, e, 0);
    crate::bit_stuffer2::lemma_le_bytes_value(n as u32 as nat, 4, e, 4);
    crate::bit_stuffer2::lemma_le_bytes_value(i0 as u32 as nat, 4, e, 8);
    crate::bit_stuffer2::lemma_le_bytes_value(i1 as u32 as nat, 4, e, 12);
    assert(e.subrange(16, e.len() as int) =~= enc + tail);
    crate::bit_stuffer2::lemma_simple_roundtrip(lens, tail);
    assert forall|k: int| 0 <= k < lens.len() implies #[trigger] lens[k] <= 31 by {
        assert(t[i0 + k].0 == t0[i0 + k].0);
    }
    assert(table_readable(e));
    let lt = lengths_table(n as nat, i0, lens);
    assert forall|k: int| 0 <= k < n implies #[trigger] table_lengths(lt)[k] == table_lengths(t0)[k] by {
        assert(t[k].0 == t0[k].0);
        if k < i0 || k >= i1 {
            lemma_uncoded_outside(t, k);
        }
    }
    assert(table_lengths(lt) =~= table_lengths(t0));
    lemma_canonical_same_lengths(t0, lt);
    lemma_canon_len(lt, (31 * n) as nat);
    assert forall|i: int| 0 <= i < t.len() && t[i].0 != 0 implies #[trigger] read_table(e)[i] == t[i] by {
        assert(t[i].0 == t0[i].0);
    }
    assert forall|i: int| 0 <= i < t.len() implies (#[trigger] read_table(e)[i]).0 == t[i].0 by {
        assert(table_lengths(lt)[i] == table_lengths(t0)[i]);
        assert(t[i].0 == t0[i].0);
    }
}


// --- the packed codes, bit by bit ---------------------------------------------------
/// Bit `q` of 32-bit words, the most significant bit of each word first.
pub open spec fn word_bit(w: Seq<u32>, q: int) -> nat {
    ((w[q / 32] >> ((31 - q % 32) as u32)) & 1u32) as nat
}

/// Bit `m` of a code of `len` bits, the most significant first.
pub open spec fn code_bit_of(c: u32, len: int, m: int) -> nat {
    ((c >> ((len - 1 - m) as u32)) & 1u32) as nat
}

/// A bit of a word, read from its little-endian bytes.
proof fn lemma_byte_bit(x: u32, r: u32)
    requires
        r < 32,
    ensures
        ((((if r / 8 == 0 {
            (x / 0x100_0000) % 256
        } else if r / 8 == 1 {
            (x / 0x1_0000) % 256
        } else if r / 8 == 2 {
            (x / 0x100) % 256
        } else {
            x % 256
        }) as u8) >> ((7 - r % 8) as u8)) & 1u8) as u32 == (x >> ((31 - r) as u32)) & 1u32,
{
    assert(((((if r / 8 == 0 {
        (x / 0x100_0000) % 256
    } else if r / 8 == 1 {
        (x / 0x1_0000) % 256
    } else if r / 8 == 2 {
        (x / 0x100) % 256
    } else {
        x % 256
    }) as u8) >> ((7 - r % 8) as u8)) & 1u8) as u32 == (x >> ((31 - r) as u32)) & 1u32) by (bit_vector)
        requires
            r < 32,
    ;
}


/// A byte of little-endian words is the byte of its word.
proof fn lemma_words_le_byte(w: Seq<u32>, k: int, j: int)
    requires
        0 <= k < w.len(),
        0 <= j < 4,
    ensures
        words_le(w)[4 * k + j] == le_bytes(w[k] as nat, 4)[j],
    decreases w.len(),
{
    lemma_words_le_len(w.drop_last());
    crate::bit_stuffer2::lemma_le_bytes_len(w.last() as nat, 4);
    if k < w.len() - 1 {
        lemma_words_le_byte(w.drop_last(), k, j);
    }
}

/// Reading bit `q` of the bytes of words is reading bit `q` of the words.
proof fn lemma_code_bit_is_word_bit(w: Seq<u32>, q: int)
    requires
        0 <= q < 32 * w.len(),
    ensures
        code_bit(words_le(w), q) == word_bit(w, q),
{
    let k = q / 32;
    let r = q % 32;
    assert(0 <= k < w.len() && 0 <= r < 32) by (nonlinear_arith)
        requires
            0 <= q < 32 * w.len(),
            k == q / 32,
            r == q % 32,
    ;
    let j = 3 - r / 8;
    assert(0 <= r / 8 <= 3) by (nonlinear_arith)
        requires
            0 <= r < 32,
    ;
    lemma_words_le_byte(w, k, j);
    let x = w[k];
    reveal_with_fuel(le_bytes, 5);
    vstd::arithmetic::div_mod::lemma_div_denominator(x as int, 256, 256);
    vstd::arithmetic::div_mod::lemma_div_denominator(x as int, 65536, 256);
    lemma_byte_bit(x, r as u32);
}

/// A code written into a word with room for it: the bits of the code are
/// added to those of the word.
proof fn lemma_or_code_within(old: u32, c: u32, bp: u32, len: u32, r: u32)
    requires
        bp < 32,
        1 <= len <= 32 - bp,
        len <= 31,
        c >> len == 0,
        r < 32,
    ensures
        ((old | (c << ((32 - bp - len) as u32))) >> ((31 - r) as u32)) & 1u32 == ((old >> ((31 - r) as u32))
            & 1u32) | if bp <= r && r < bp + len {
            (c >> ((len - 1 - (r - bp)) as u32)) & 1u32
        } else {
            0u32
        },
{
    assert(((old | (c << ((32 - bp - len) as u32))) >> ((31 - r) as u32)) & 1u32 == ((old >> ((31 - r) as u32))
        & 1u32) | if bp <= r && r < bp + len {
        (c >> ((len - 1 - (r - bp)) as u32)) & 1u32
    } else {
        0u32
    }) by (bit_vector)
        requires
            bp < 32,
            1 <= len <= 32 - bp,
            len <= 31,
            c >> len == 0,
            r < 32,
    ;
}

/// The first part of a code that spills into the next word: its bits are
/// added to those of the word.
proof fn lemma_or_code_head(old: u32, c: u32, bp: u32, len: u32, r: u32)
    requires
        bp < 32,
        1 <= len <= 31,
        bp + len > 32,
        c >> len == 0,
        r < 32,
    ensures
        ((old | (c >> ((bp + len - 32) as u32))) >> ((31 - r) as u32)) & 1u32 == ((old >> ((31 - r) as u32))
            & 1u32) | if bp <= r {
            (c >> ((len - 1 - (r - bp)) as u32)) & 1u32
        } else {
            0u32
        },
{
    assert(((old | (c >> ((bp + len - 32) as u32))) >> ((31 - r) as u32)) & 1u32 == ((old >> ((31 - r) as u32))
        & 1u32) | if bp <= r {
        (c >> ((len - 1 - (r - bp)) as u32)) & 1u32
    } else {
        0u32
    }) by (bit_vector)
        requires
            bp < 32,
            1 <= len <= 31,
            bp + len > 32,
            c >> len == 0,
            r < 32,
    ;
}

/// The rest of a code that spills into the next word.
proof fn lemma_code_tail(c: u32, nb: u32, r: u32)
    requires
        1 <= nb < 32,
        r < 32,
    ensures
        ((c << ((32 - nb) as u32)) >> ((31 - r) as u32)) & 1u32 == if r < nb {
            (c >> ((nb - 1 - r) as u32)) & 1u32
        } else {
            0u32
        },
{
    assert(((c << ((32 - nb) as u32)) >> ((31 - r) as u32)) & 1u32 == if r < nb {
        (c >> ((nb - 1 - r) as u32)) & 1u32
    } else {
        0u32
    }) by (bit_vector)
        requires
            1 <= nb < 32,
            r < 32,
    ;
}


/// Small facts on the bits of words.
proof fn lemma_bit_facts(a: u32, c: u32, s: u32)
    ensures
        0u32 | a == a,
        a | 0u32 == a,
        a & 1u32 <= 1,
        s < 31 ==> 2 * (c >> ((s + 1) as u32)) + ((c >> s) & 1u32) == c >> s,
{
    assert(0u32 | a == a && a | 0u32 == a && a & 1u32 <= 1 && (s < 31 ==> 2 * (c >> ((s + 1) as u32)) + ((c
        >> s) & 1u32) == c >> s)) by (bit_vector);
}

/// Every byte has a code of 1 to 31 bits, and every code fits in its length.
pub open spec fn codes_fit(t: Seq<(u16, u32)>, data: Seq<u8>) -> bool {
    forall|j: int|
        0 <= j < data.len() ==> 1 <= (#[trigger] t[data[j] as int]).0 <= 31 && t[data[j] as int].1 >> (
        t[data[j] as int].0 as u32) == 0
}

/// Bit `m` of the code of byte `j`, read where the codes before it end.
pub open spec fn placed_bit(w: Seq<u32>, t: Seq<(u16, u32)>, data: Seq<u8>, j: int, m: int) -> nat {
    word_bit(w, codes_bits(t, data, j) + m)
}

/// Writing one code changes the bits of its place, and no other bit.
proof fn lemma_step_bits(st: (Seq<u32>, int, int), e: (u16, u32), q: int)
    requires
        0 <= st.2 < 32,
        0 <= st.1,
        1 <= e.0 <= 31,
        e.1 >> (e.0 as u32) == 0,
        32 * st.1 + st.2 + e.0 <= 32 * st.0.len(),
        forall|x: int| 32 * st.1 + st.2 <= x < 32 * st.0.len() ==> #[trigger] word_bit(st.0, x) == 0,
        0 <= q < 32 * st.0.len(),
    ensures
        pack_step(st, e).0.len() == st.0.len(),
        word_bit(pack_step(st, e).0, q) == if 32 * st.1 + st.2 <= q < 32 * st.1 + st.2 + e.0 {
            code_bit_of(e.1, e.0 as int, q - (32 * st.1 + st.2))
        } else {
            word_bit(st.0, q)
        },
{
    let arr = st.0;
    let idx = st.1;
    let bp = st.2;
    let len = e.0 as int;
    let c = e.1;
    let p = 32 * idx + bp;
    let w = q / 32;
    let r = q % 32;
    assert(q == 32 * w + r && 0 <= r < 32 && 0 <= w < arr.len()) by (nonlinear_arith)
        requires
            w == q / 32,
            r == q % 32,
            0 <= q < 32 * arr.len(),
    ;
    assert(idx < arr.len());
    let old = arr[w];
    lemma_bit_facts((old >> ((31 - r) as u32)) & 1u32, c, 0);
    let nx = pack_step(st, e);
    if 32 - bp >= len {
        assert(nx.0 == arr.update(idx, arr[idx] | (c << ((32 - bp - len) as u32))));
        if w == idx {
            lemma_or_code_within(old, c, bp as u32, len as u32, r as u32);
            lemma_bit_facts((c >> ((len - 1 - (r - bp)) as u32)) & 1u32, c, 0);
            if p <= q < p + len {
                assert(word_bit(arr, q) == 0);
            }
        }
    } else {
        let nb = bp + len - 32;
        assert(idx + 1 < arr.len());
        let arr2 = arr.update(idx, arr[idx] | (c >> (nb as u32)));
        assert(nx.0 == arr2.update(idx + 1, c << ((32 - nb) as u32)));
        if w == idx {
            lemma_or_code_head(old, c, bp as u32, len as u32, r as u32);
            lemma_bit_facts((c >> ((len - 1 - (r - bp)) as u32)) & 1u32, c, 0);
            if p <= q {
                assert(word_bit(arr, q) == 0);
            }
        } else if w == idx + 1 {
            lemma_code_tail(c, nb as u32, r as u32);
            if q >= p + len {
                assert(word_bit(arr, q) == 0);
            }
        }
    }
}

/// The code bits before byte `k` end no later than those before a later byte.
proof fn lemma_codes_bits_grow(t: Seq<(u16, u32)>, data: Seq<u8>, j: int, k: int)
    requires
        0 <= j <= k,
    ensures
        codes_bits(t, data, j) <= codes_bits(t, data, k),
    decreases k - j,
{
    if j < k {
        lemma_codes_bits_grow(t, data, j, k - 1);
    }
}

/// After writing the codes of the first `k` bytes, every code is at its place
/// and every bit after the last code is clear.
proof fn lemma_pack_bits(t: Seq<(u16, u32)>, data: Seq<u8>, k: nat)
    requires
        k <= data.len(),
        codes_fit(t, data),
    ensures
        ({
            let arr = pack_codes(t, data, k).0;
            &&& forall|x: int| codes_bits(t, data, k as int) <= x < 32 * arr.len() ==> #[trigger] word_bit(arr, x) == 0
            &&& forall|j: int, m: int|
                0 <= j < k && 0 <= m < t[data[j] as int].0 ==> #[trigger] placed_bit(arr, t, data, j, m)
                    == code_bit_of(t[data[j] as int].1, t[data[j] as int].0 as int, m)
        }),
    decreases k,
{
    assert forall|j: int| 0 <= j < data.len() implies 1 <= #[trigger] t[data[j] as int].0 <= 31 by {}
    lemma_pack_position(t, data, k);
    let arr = pack_codes(t, data, k).0;
    if k == 0 {
        assert forall|x: int| codes_bits(t, data, k as int) <= x < 32 * arr.len() implies #[trigger] word_bit(arr, x) == 0 by {
            let w = x / 32;
            assert(0 <= w < arr.len()) by (nonlinear_arith)
                requires
                    w == x / 32,
                    0 <= x < 32 * arr.len(),
            ;
            crate::bit_math::lemma_u32_shifts(0, (31 - x % 32) as u32);
        }
    } else {
        lemma_pack_bits(t, data, (k - 1) as nat);
        lemma_pack_position(t, data, (k - 1) as nat);
        let st = pack_codes(t, data, (k - 1) as nat);
        let e = t[data[k - 1] as int];
        let p = codes_bits(t, data, k - 1);
        assert(arr == pack_step(st, e).0);
        assert(p + e.0 <= 32 * st.0.len());
        assert forall|x: int| codes_bits(t, data, k as int) <= x < 32 * arr.len() implies #[trigger] word_bit(arr, x) == 0 by {
            lemma_step_bits(st, e, x);
        }
        assert forall|j: int, m: int|
            0 <= j < k && 0 <= m < t[data[j] as int].0 implies #[trigger] placed_bit(arr, t, data, j, m)
                == code_bit_of(t[data[j] as int].1, t[data[j] as int].0 as int, m) by {
            let x = codes_bits(t, data, j) + m;
            lemma_codes_bits_grow(t, data, 0, j);
            if j < k - 1 {
                lemma_codes_bits_grow(t, data, j + 1, k - 1);
                assert(placed_bit(st.0, t, data, j, m) == code_bit_of(t[data[j] as int].1, t[data[j] as int].0 as int, m));
            }
            lemma_codes_bits_grow(t, data, j, k - 1);
            lemma_step_bits(st, e, x);
        }
    }
}

/// Bits that spell a code, most significant first, read back as the code.
proof fn lemma_read_code(s: Seq<u8>, p: int, c: u32, len: int, l: nat)
    requires
        1 <= len <= 31,
        l <= len,
        c >> (len as u32) == 0,
        forall|m: int| 0 <= m < len ==> code_bit(s, p + m) == #[trigger] code_bit_of(c, len, m),
    ensures
        read_bits(s, p, l) == (c >> ((len - l) as u32)) as nat,
    decreases l,
{
    if l > 0 {
        lemma_read_code(s, p, c, len, (l - 1) as nat);
        assert(code_bit(s, p + (l - 1)) == code_bit_of(c, len, l - 1));
        lemma_bit_facts(0, c, (len - l) as u32);
    }
}

/// The words the encoder packs hold the code of every byte, most significant
/// bit first, where the codes of the bytes before it end; and they hold all
/// the code bits.
pub proof fn lemma_packed_codes_read_back(t: Seq<(u16, u32)>, data: Seq<u8>)
    requires
        codes_fit(t, data),
    ensures
        codes_bits(t, data, data.len() as int) <= 32 * packed_codes(t, data).len(),
        words_le(packed_codes(t, data)).len() == 4 * packed_codes(t, data).len(),
        forall|j: int, l: nat|
            0 <= j < data.len() && l <= t[data[j] as int].0 ==> #[trigger] read_bits(
                words_le(packed_codes(t, data)),
                codes_bits(t, data, j),
                l,
            ) == (t[data[j] as int].1 >> ((t[data[j] as int].0 - l) as u32)) as nat,
{
    let n = data.len();
    assert forall|j: int| 0 <= j < data.len() implies 1 <= #[trigger] t[data[j] as int].0 <= 31 by {}
    lemma_pack_position(t, data, n);
    lemma_packed_len(t, data);
    lemma_pack_bits(t, data, n);
    let arr = pack_codes(t, data, n).0;
    let w = packed_codes(t, data);
    let s = words_le(w);
    lemma_words_le_len(w);
    let total = codes_bits(t, data, n as int);
    assert(total <= 32 * w.len()) by (nonlinear_arith)
        requires
            w.len() == (total + 31) / 32 + 1,
            total >= 0,
    ;
    assert forall|j: int, l: nat| 0 <= j < data.len() && l <= t[data[j] as int].0 implies #[trigger] read_bits(
        s,
        codes_bits(t, data, j),
        l,
    ) == (t[data[j] as int].1 >> ((t[data[j] as int].0 - l) as u32)) as nat by {
        let e = t[data[j] as int];
        let p = codes_bits(t, data, j);
        lemma_codes_bits_grow(t, data, j + 1, n as int);
        lemma_codes_bits_grow(t, data, 0, j);
        assert forall|m: int| 0 <= m < e.0 implies code_bit(s, p + m) == #[trigger] code_bit_of(e.1, e.0 as int, m) by {
            assert(placed_bit(arr, t, data, j, m) == code_bit_of(e.1, e.0 as int, m));
            lemma_code_bit_is_word_bit(w, p + m);
            let x = p + m;
            assert(x / 32 < w.len()) by (nonlinear_arith)
                requires
                    0 <= x < 32 * w.len(),
            ;
        }
        lemma_read_code(s, p, e.1, e.0 as int, l);
    }
}


// --- decoding what was encoded -------------------------------------------------------
/// Every code fits in its length, codes of one length differ, and no code is
/// the start of a longer one.
pub open spec fn prefix_free(t: Seq<(u16, u32)>) -> bool {
    &&& forall|i: int| 0 <= i < t.len() && t[i].0 != 0 ==> (#[trigger] t[i]).0 <= 31 && t[i].1 >> (t[i].0 as u32) == 0
    &&& forall|i: int, k: int|
        0 <= i < t.len() && 0 <= k < t.len() && i != k && 1 <= t[i].0 <= t[k].0 ==> (#[trigger] t[k]).1 >> ((
        t[k].0 - t[i].0) as u32) != (#[trigger] t[i]).1
}

/// No entry from `k` on, below `i1`, has the length and the code looked for.
proof fn lemma_first_with_none(t: Seq<(u16, u32)>, l: nat, v: nat, k: int, i1: int)
    requires
        0 <= k,
        i1 <= t.len(),
        forall|x: int| k <= x < i1 ==> !((#[trigger] t[x]).0 == l && t[x].1 == v),
    ensures
        first_with(t, l, v, k, i1) == i1,
    decreases i1 - k,
{
    if k < i1 {
        lemma_first_with_none(t, l, v, k + 1, i1);
    }
}

/// The first entry with the length and the code looked for is found.
proof fn lemma_first_with_found(t: Seq<(u16, u32)>, l: nat, v: nat, k: int, i1: int, s: int)
    requires
        0 <= k <= s < i1 <= t.len(),
        t[s].0 == l && t[s].1 == v,
        forall|x: int| k <= x < s ==> !((#[trigger] t[x]).0 == l && t[x].1 == v),
    ensures
        first_with(t, l, v, k, i1) == s,
    decreases s - k,
{
    if k < s {
        lemma_first_with_found(t, l, v, k + 1, i1, s);
    }
}

/// `r` has the length and the code of `t` at every entry where `t` has a
/// code, and no code where `t` has none.
pub open spec fn agrees_on_codes(r: Seq<(u16, u32)>, t: Seq<(u16, u32)>) -> bool {
    &&& r.len() == t.len()
    &&& forall|i: int| 0 <= i < t.len() && t[i].0 != 0 ==> #[trigger] r[i] == t[i]
    &&& forall|i: int| 0 <= i < t.len() && t[i].0 == 0 ==> (#[trigger] r[i]).0 == 0
}

/// The symbol whose code starts at bit `p` is found, trying the lengths from
/// `l` on, when the bits there spell its code.
proof fn lemma_match_code(s: Seq<u8>, r: Seq<(u16, u32)>, t: Seq<(u16, u32)>, i0: int, i1: int, p: int, sym: int, l: nat)
    requires
        prefix_free(t),
        agrees_on_codes(r, t),
        0 <= i0 <= sym < i1 <= t.len(),
        forall|i: int| 0 <= i < t.len() && t[i].0 != 0 ==> i0 <= i < i1,
        1 <= l <= t[sym].0,
        p + t[sym].0 <= (s.len() / 4) * 32,
        forall|k: nat| k <= t[sym].0 ==> #[trigger] read_bits(s, p, k) == (t[sym].1 >> ((t[sym].0 - k) as u32)) as nat,
    ensures
        match_symbol(s, r, i0, i1, p, l) == Some((sym, t[sym].0 as nat)),
    decreases t[sym].0 - l,
{
    let len = t[sym].0 as int;
    let c = t[sym].1;
    let v = read_bits(s, p, l);
    assert(t[sym].0 != 0);
    assert(r[sym] == t[sym]);
    if l < len {
        assert forall|x: int| i0 <= x < i1 implies !((#[trigger] r[x]).0 == l && r[x].1 == v) by {
            if r[x].0 == l {
                if t[x].0 == 0 {
                    assert(r[x].0 == 0);
                } else {
                    assert(r[x] == t[x]);
                    assert(x != sym);
                    assert(t[sym].1 >> ((t[sym].0 - t[x].0) as u32) != t[x].1);
                }
            }
        }
        lemma_first_with_none(r, l, v, i0, i1);
        lemma_match_code(s, r, t, i0, i1, p, sym, l + 1);
    } else {
        crate::bit_math::lemma_u32_shifts(c, 0);
        assert(v == c);
        assert forall|x: int| i0 <= x < sym implies !((#[trigger] r[x]).0 == l && r[x].1 == v) by {
            if r[x].0 == l {
                if t[x].0 == 0 {
                    assert(r[x].0 == 0);
                } else {
                    assert(r[x] == t[x]);
                    assert(t[sym].1 >> ((t[sym].0 - t[x].0) as u32) != t[x].1);
                    crate::bit_math::lemma_u32_shifts(t[sym].1, 0);
                }
            }
        }
        lemma_first_with_found(r, l, v, i0, i1, sym);
    }
}


/// The bytes as a fresh Huffman coder writes them; `None` where it fails.
pub open spec fn huffman_bytes(data: Seq<u8>) -> Option<Seq<u8>> {
    if data.len() == 0 {
        Some(Seq::empty())
    } else {
        let h = byte_histogram(data);
        let t = huffman_table(Seq::empty(), h);
        if !(codes_computable(h) && lengths_fit(h)) || code_table_bytes(t) is None || !all_coded(t, data) {
            None
        } else {
            Some(code_table_bytes(t).unwrap() + words_le(packed_codes(t, data)))
        }
    }
}

/// The error a fresh Huffman coder reports for the bytes.
pub open spec fn huffman_bytes_error(data: Seq<u8>, e: LepccError) -> bool {
    let h = byte_histogram(data);
    let t = huffman_table(Seq::empty(), h);
    if !(codes_computable(h) && lengths_fit(h)) {
        is_failed(e, "Failed to compute Huffman codes"@)
    } else if code_table_bytes(t) is None {
        (code_range(t) is None && code_range_error(t, e)) || (code_range(t) is Some && is_failed(
            e,
            "Too many bits needed for bit stuffing"@,
        ))
    } else {
        is_failed(e, "Invalid Huffman code length"@)
    }
}


/// Every entry with a code lies in the range of the table.
proof fn lemma_coded_in_range(t: Seq<(u16, u32)>, i: int)
    requires
        code_range(t) is Some,
        0 <= i < t.len(),
        t[i].0 != 0,
    ensures
        code_range(t).unwrap().0 <= i < code_range(t).unwrap().1,
{
    if i < first_coded(t, 0) || i > last_coded(t, t.len() - 1) {
        lemma_uncoded_outside(t, i);
    }
}

/// Decoding the packed codes of `data`, with a table that agrees with the
/// prefix-free table they were written with, gives back the bytes one by one.
proof fn lemma_decode_packed(t: Seq<(u16, u32)>, r: Seq<(u16, u32)>, data: Seq<u8>, i0: int, i1: int, k: nat)
    requires
        prefix_free(t),
        agrees_on_codes(r, t),
        0 <= i0 < i1 <= t.len(),
        i1 <= 256,
        forall|i: int| 0 <= i < t.len() && t[i].0 != 0 ==> i0 <= i < i1,
        all_coded(t, data),
        forall|j: int| 0 <= j < data.len() ==> (#[trigger] data[j]) < t.len(),
        k <= data.len(),
    ensures
        decode_symbols(words_le(packed_codes(t, data)), r, i0, i1, k) == Some(
            (data.take(k as int), codes_bits(t, data, k as int)),
        ),
    decreases k,
{
    let s = words_le(packed_codes(t, data));
    assert(codes_fit(t, data)) by {
        assert forall|j: int| 0 <= j < data.len() implies 1 <= (#[trigger] t[data[j] as int]).0 <= 31 && t[data[j] as int].1
            >> (t[data[j] as int].0 as u32) == 0 by {
            assert(t[data[j] as int].0 != 0);
        }
    }
    if k == 0 {
        assert(data.take(0) =~= Seq::<u8>::empty());
    } else {
        lemma_decode_packed(t, r, data, i0, i1, (k - 1) as nat);
        lemma_packed_codes_read_back(t, data);
        let j = k - 1;
        let sym = data[j] as int;
        let p = codes_bits(t, data, j);
        let len = t[sym].0 as int;
        let wl = packed_codes(t, data).len();
        lemma_codes_bits_grow(t, data, k as int, data.len() as int);
        assert(s.len() / 4 == wl);
        assert(p + len <= (s.len() / 4) * 32);
        assert forall|l: nat| l <= t[sym].0 implies #[trigger] read_bits(s, p, l) == (t[sym].1 >> ((t[sym].0 - l) as u32)) as nat by {
            assert(read_bits(s, codes_bits(t, data, j), l) == (t[data[j] as int].1 >> ((t[data[j] as int].0 - l) as u32)) as nat);
        }
        lemma_match_code(s, r, t, i0, i1, p, sym, 1);
        assert(data.take(j).push(sym as u8) =~= data.take(k as int));
    }
}

/// Decoding what a fresh Huffman coder writes for non-empty bytes gives the
/// bytes back.
pub proof fn lemma_huffman_roundtrip(data: Seq<u8>)
    requires
        0 < data.len(),
        huffman_bytes(data) is Some,
    ensures
        huffman_decoding(huffman_bytes(data).unwrap(), data.len()) == Some(data),
{
    let h = byte_histogram(data);
    let t0 = leaf_table(Seq::empty(), h);
    let t = huffman_table(Seq::empty(), h);
    let words = words_le(packed_codes(t, data));
    assert(t0.len() == 256);
    assert forall|i: int| 0 <= i < t0.len() implies (#[trigger] t0[i]).0 <= 31 by {
        if h[i] > 0 {
            assert(huffman_lengths(h)[i] <= 31);
        }
    }
    lemma_huffman_fills_code_space(h);
    lemma_canonical_prefix_free(t0);
    lemma_code_table_read_back(t0, words);
    lemma_canon_len(t0, (31 * 256) as nat);
    let e = code_table_bytes(t).unwrap() + words;
    assert(e == huffman_bytes(data).unwrap());
    let i0 = le_value(e, 8, 4) as int;
    let i1 = le_value(e, 12, 4) as int;
    let r = read_table(e);
    let s = e.subrange(codes_start(e), e.len() as int);
    assert(s =~= words);
    assert(agrees_on_codes(r, t));
    assert forall|i: int| 0 <= i < t.len() && t[i].0 != 0 implies i0 <= i < i1 by {
        lemma_coded_in_range(t, i);
    }
    assert forall|j: int| 0 <= j < data.len() implies (#[trigger] data[j]) < t.len() by {}
    lemma_decode_packed(t, r, data, i0, i1, data.len());
    assert(data.take(data.len() as int) =~= data);
}


// --- canonical codes are prefix-free ---------------------------------------------------
/// The share of the code space that a code of `l` bits takes, in units of the
/// codes of 31 bits.
pub open spec fn code_weight(l: int) -> int {
    vstd::arithmetic::power2::pow2((31 - l) as nat) as int
}

/// Step `q` of making the codes canonical visits an entry of the length it looks for.
pub open spec fn canon_hit(a: Seq<(u16, u32)>, q: int) -> bool {
    a[q % (a.len() as int)].0 == 31 - q / (a.len() as int)
}

/// The code space taken by the entries visited in the first `p` steps.
pub open spec fn canon_used(a: Seq<(u16, u32)>, p: nat) -> int
    decreases p,
{
    if p == 0 {
        0
    } else {
        canon_used(a, (p - 1) as nat) + if canon_hit(a, p - 1) {
            code_weight(31 - (p - 1) / (a.len() as int))
        } else {
            0
        }
    }
}

/// The code lengths fill the code space exactly (Kraft's equality).
pub open spec fn fills_code_space(a: Seq<(u16, u32)>) -> bool {
    canon_used(a, (31 * a.len()) as nat) == vstd::arithmetic::power2::pow2(31)
}

/// The step at which an entry with a code is visited.
pub open spec fn canon_pos(a: Seq<(u16, u32)>, i: int) -> int {
    (31 - a[i].0) * a.len() + i
}

/// The longest code is at least as long as every code.
proof fn lemma_longest_bounds(a: Seq<(u16, u32)>, k: int)
    requires
        0 <= k <= a.len(),
    ensures
        forall|i: int| 0 <= i < k ==> (#[trigger] a[i]).0 <= longest_code(a, 0, k),
    decreases k,
{
    if k > 0 {
        lemma_longest_bounds(a, k - 1);
    }
}

/// More steps take more code space.
proof fn lemma_used_grows(a: Seq<(u16, u32)>, p: nat, m: nat)
    requires
        p <= m,
    ensures
        canon_used(a, p) <= canon_used(a, m),
    decreases m - p,
{
    if p < m {
        lemma_used_grows(a, p, (m - 1) as nat);
        vstd::arithmetic::power2::lemma_pow2_pos((31 - (31 - (m - 1) / (a.len() as int))) as nat);
    }
}

/// A code of `l` bits, with `l` up to `L`, takes a whole number of shares of
/// a code of `L` bits.
proof fn lemma_weight_multiple(l: int, big: int)
    requires
        1 <= l <= big <= 31,
    ensures
        code_weight(l) == code_weight(big) * vstd::arithmetic::power2::pow2((big - l) as nat),
{
    vstd::arithmetic::power2::lemma_pow2_adds((31 - big) as nat, (big - l) as nat);
}

/// The space taken from step `p` to step `m`, where every visited length is at
/// most `big`, is a whole number of shares of a code of `big` bits.
proof fn lemma_used_multiple(a: Seq<(u16, u32)>, p: nat, m: nat, big: int) -> (k: int)
    requires
        a.len() > 0,
        p <= m <= 31 * a.len(),
        1 <= big <= 31,
        forall|q: int| p <= q < m && canon_hit(a, q) ==> 31 - q / (a.len() as int) <= big,
    ensures
        canon_used(a, m) - canon_used(a, p) == k * code_weight(big),
    decreases m - p,
{
    if p == m {
        0
    } else {
        let k0 = lemma_used_multiple(a, p, (m - 1) as nat, big);
        let q = m - 1;
        let n = a.len() as int;
        if canon_hit(a, q) {
            let l = 31 - q / n;
            assert(q / n <= 30) by (nonlinear_arith)
                requires
                    0 <= q < 31 * n,
                    n > 0,
            ;
            lemma_weight_multiple(l, big);
            let x = vstd::arithmetic::power2::pow2((big - l) as nat) as int;
            assert(k0 * code_weight(big) + code_weight(big) * x == (k0 + x) * code_weight(big)) by (nonlinear_arith);
            k0 + x
        } else {
            k0
        }
    }
}

/// While the codes are made canonical, the next code times the share of the
/// current length is the space taken so far, no length still to come is
/// longer than the current one, and every entry visited has its code at the
/// space taken before it.
#[verifier::rlimit(40)]
proof fn lemma_canon_intervals(a: Seq<(u16, u32)>, p: nat)
    requires
        a.len() > 0,
        forall|i: int| 0 <= i < a.len() ==> (#[trigger] a[i]).0 <= 31,
        fills_code_space(a),
        p <= 31 * a.len(),
    ensures
        ({
            let st = canon_state(a, p);
            &&& st.2 <= 31
            &&& st.0.len() == a.len()
            &&& st.1 * code_weight(st.2 as int) == canon_used(a, p)
            &&& forall|q: int| p <= q < 31 * a.len() && canon_hit(a, q) ==> 31 - q / (a.len() as int) <= st.2
            &&& forall|i: int|
                0 <= i < a.len() && 1 <= a[i].0 && canon_pos(a, i) < p ==> (#[trigger] st.0[i]).1 * code_weight(
                    a[i].0 as int,
                ) == canon_used(a, canon_pos(a, i) as nat)
        }),
    decreases p,
{
    let n = a.len() as int;
    lemma_canon_len(a, p);
    if p == 0 {
        lemma_longest_bounds(a, n);
        lemma_longest_bound(a, n);
        assert(canon_state(a, 0).1 == 0u32);
        assert(canon_used(a, 0) == 0);
        assert forall|q: int| 0 <= q < 31 * n && canon_hit(a, q) implies 31 - q / n <= canon_state(a, 0).2 by {
            assert(0 <= q % n < n) by (nonlinear_arith)
                requires
                    n > 0,
            ;
        }
        assert forall|i: int| 0 <= i < n && 1 <= a[i].0 implies canon_pos(a, i) >= 0 by {
            assert((31 - a[i].0) * n >= 0) by (nonlinear_arith)
                requires
                    a[i].0 <= 31,
                    n > 0,
            ;
        }
    } else {
        let q = p - 1;
        lemma_canon_intervals(a, q as nat);
        let st = canon_state(a, q as nat);
        let len = 31 - q / n;
        let j = q % n;
        assert(0 <= j < n && 0 <= q / n <= 30) by (nonlinear_arith)
            requires
                0 <= q < 31 * n,
                n > 0,
                j == q % n,
        ;
        if canon_hit(a, q) {
            let cur = st.2 as int;
            assert(len <= cur);
            let delta = cur - len;
            // the space taken so far is a whole number of shares of the current length
            assert forall|x: int| q <= x < 31 * n && canon_hit(a, x) implies 31 - x / n <= len by {
                vstd::arithmetic::div_mod::lemma_div_is_ordered(q, x, n);
            }
            let k = lemma_used_multiple(a, q as nat, (31 * n) as nat, len);
            vstd::arithmetic::power2::lemma_pow2_adds((31 - len) as nat, len as nat);
            vstd::arithmetic::power2::lemma2_to64();
            let u = canon_used(a, q as nat);
            let kk = vstd::arithmetic::power2::pow2(len as nat) as int - k;
            assert(u == kk * code_weight(len)) by (nonlinear_arith)
                requires
                    canon_used(a, (31 * n) as nat) - u == k * code_weight(len),
                    canon_used(a, (31 * n) as nat) == code_weight(len) * vstd::arithmetic::power2::pow2(len as nat),
                    kk == vstd::arithmetic::power2::pow2(len as nat) - k,
            ;
            lemma_weight_multiple(len, cur);
            let pd = vstd::arithmetic::power2::pow2(delta as nat) as int;
            vstd::arithmetic::power2::lemma_pow2_pos((31 - cur) as nat);
            vstd::arithmetic::power2::lemma_pow2_pos(delta as nat);
            assert(st.1 == kk * pd) by (nonlinear_arith)
                requires
                    st.1 * code_weight(cur) == kk * code_weight(len),
                    code_weight(len) == code_weight(cur) * pd,
                    code_weight(cur) > 0,
            ;
            vstd::bits::lemma_u32_shr_is_div(st.1, delta as u32);
            assert(kk == st.1 as int / pd) by (nonlinear_arith)
                requires
                    st.1 == kk * pd,
                    pd > 0,
            ;
            let code = st.1 >> (delta as u32);
            assert(code == kk);
            // the code after it still fits in 32 bits
            lemma_used_grows(a, p, (31 * n) as nat);
            vstd::arithmetic::power2::lemma_pow2_pos((31 - len) as nat);
            assert(canon_used(a, p) == u + code_weight(len));
            assert(kk + 1 <= 0x8000_0000) by (nonlinear_arith)
                requires
                    u == kk * code_weight(len),
                    u + code_weight(len) <= 0x8000_0000,
                    code_weight(len) >= 1,
            ;
            let nst = canon_state(a, p);
            assert(nst.1 == (code + 1) as u32);
            assert(nst.2 == len);
            assert(nst.1 * code_weight(nst.2 as int) == canon_used(a, p)) by (nonlinear_arith)
                requires
                    nst.1 == kk + 1,
                    kk * code_weight(len) == u,
                    canon_used(a, p) == u + code_weight(len),
                    nst.2 == len,
            ;
            assert forall|x: int| p <= x < 31 * n && canon_hit(a, x) implies 31 - x / n <= nst.2 by {
                vstd::arithmetic::div_mod::lemma_div_is_ordered(q, x, n);
            }
            assert forall|i: int| 0 <= i < n && 1 <= a[i].0 && canon_pos(a, i) < p implies (#[trigger] nst.0[i]).1
                * code_weight(a[i].0 as int) == canon_used(a, canon_pos(a, i) as nat) by {
                if canon_pos(a, i) == q {
                    lemma_visit_before_end(n, a[i].0 as int, i);
                    assert(i == j);
                } else if i == j {
                    lemma_visit_step(n, a[i].0 as int, i, q);
                }
            }
        } else {
            assert(canon_state(a, p) == st);
            assert(canon_used(a, p) == canon_used(a, q as nat));
            assert forall|x: int| p <= x < 31 * n && canon_hit(a, x) implies 31 - x / n <= st.2 by {
                assert(q <= x);
            }
            assert forall|i: int| 0 <= i < n && 1 <= a[i].0 && canon_pos(a, i) < p implies (#[trigger] canon_state(a, p).0[i]).1
                * code_weight(a[i].0 as int) == canon_used(a, canon_pos(a, i) as nat) by {
                if canon_pos(a, i) == q {
                    lemma_visit_before_end(n, a[i].0 as int, i);
                }
            }
        }
    }
}


/// An entry with a code is visited once: at its step, which takes the space
/// of its code.
proof fn lemma_entry_visit(a: Seq<(u16, u32)>, i: int)
    requires
        a.len() > 0,
        0 <= i < a.len(),
        1 <= a[i].0 <= 31,
    ensures
        0 <= canon_pos(a, i) < 31 * a.len(),
        canon_pos(a, i) % (a.len() as int) == i,
        canon_hit(a, canon_pos(a, i)),
        canon_used(a, (canon_pos(a, i) + 1) as nat) == canon_used(a, canon_pos(a, i) as nat) + code_weight(
            a[i].0 as int,
        ),
{
    let n = a.len() as int;
    lemma_visit_before_end(n, a[i].0 as int, i);
}

/// Canonical codes whose lengths fill the code space exactly are prefix-free.
pub proof fn lemma_canonical_prefix_free(a: Seq<(u16, u32)>)
    requires
        a.len() > 0,
        forall|i: int| 0 <= i < a.len() ==> (#[trigger] a[i]).0 <= 31,
        fills_code_space(a),
    ensures
        prefix_free(canonical(a)),
{
    let n = a.len() as int;
    let c = canonical(a);
    lemma_canon_intervals(a, (31 * n) as nat);
    lemma_canon_len(a, (31 * n) as nat);
    vstd::arithmetic::power2::lemma2_to64();
    assert forall|i: int| 0 <= i < c.len() && c[i].0 != 0 implies (#[trigger] c[i]).0 <= 31 && c[i].1 >> (
    c[i].0 as u32) == 0 by {
        let l = a[i].0 as int;
        lemma_entry_visit(a, i);
        let ps = canon_pos(a, i);
        lemma_used_grows(a, (ps + 1) as nat, (31 * n) as nat);
        vstd::arithmetic::power2::lemma_pow2_adds((31 - l) as nat, l as nat);
        vstd::arithmetic::power2::lemma_pow2_pos((31 - l) as nat);
        let w = code_weight(l);
        let big = vstd::arithmetic::power2::pow2(l as nat) as int;
        assert(c[i].1 < big) by (nonlinear_arith)
            requires
                c[i].1 * w + w <= w * big,
                w > 0,
        ;
        vstd::bits::lemma_u32_shr_is_div(c[i].1, l as u32);
        vstd::arithmetic::div_mod::lemma_basic_div(c[i].1 as int, big);
    }
    assert forall|i: int, k: int|
        0 <= i < c.len() && 0 <= k < c.len() && i != k && 1 <= c[i].0 <= c[k].0 implies (#[trigger] c[k]).1 >> ((
        c[k].0 - c[i].0) as u32) != (#[trigger] c[i]).1 by {
        let li = a[i].0 as int;
        let lk = a[k].0 as int;
        let d = lk - li;
        lemma_entry_visit(a, i);
        lemma_entry_visit(a, k);
        let pi = canon_pos(a, i);
        let pk = canon_pos(a, k);
        let ui = canon_used(a, pi as nat);
        let uk = canon_used(a, pk as nat);
        let ci = c[i].1 as int;
        let ck = c[k].1 as int;
        let pd = vstd::arithmetic::power2::pow2(d as nat) as int;
        vstd::bits::lemma_u32_shr_is_div(c[k].1, d as u32);
        if c[k].1 >> (d as u32) == c[i].1 {
            lemma_weight_multiple(li, lk);
            vstd::arithmetic::power2::lemma_pow2_pos((31 - lk) as nat);
            vstd::arithmetic::power2::lemma_pow2_pos(d as nat);
            vstd::arithmetic::div_mod::lemma_fundamental_div_mod(ck, pd);
            let wk = code_weight(lk);
            let wi = code_weight(li);
            assert(ui <= uk < ui + wi) by (nonlinear_arith)
                requires
                    ck / pd == ci,
                    ck == pd * (ck / pd) + ck % pd,
                    0 <= ck % pd < pd,
                    ui == ci * wi,
                    uk == ck * wk,
                    wi == wk * pd,
                    wk > 0,
            ;
            if pk > pi {
                lemma_used_grows(a, (pi + 1) as nat, pk as nat);
            } else {
                assert(pk != pi);
                lemma_used_grows(a, (pk + 1) as nat, pi as nat);
            }
        }
    }
}


/// The code space taken by the codes of the first `m` entries.
pub open spec fn kraft_sum(a: Seq<(u16, u32)>, m: int) -> int
    decreases m,
{
    if m <= 0 {
        0
    } else {
        kraft_sum(a, m - 1) + if 1 <= a[m - 1].0 <= 31 {
            code_weight(a[m - 1].0 as int)
        } else {
            0
        }
    }
}

/// The code space taken by the codes of length `len` among the first `m` entries.
spec fn level_sum(a: Seq<(u16, u32)>, len: int, m: int) -> int
    decreases m,
{
    if m <= 0 {
        0
    } else {
        level_sum(a, len, m - 1) + if a[m - 1].0 == len {
            code_weight(len)
        } else {
            0
        }
    }
}

/// The code space taken by the codes of lengths `top` to 31 among the first `m` entries.
spec fn levels_sum(a: Seq<(u16, u32)>, top: int, m: int) -> int
    decreases 32 - top,
{
    if top > 31 || top < 0 {
        0
    } else {
        level_sum(a, top, m) + levels_sum(a, top + 1, m)
    }
}

/// Making codes canonical visits the entries of one length in order.
proof fn lemma_used_in_level(a: Seq<(u16, u32)>, len: int, m: int)
    requires
        a.len() > 0,
        1 <= len <= 31,
        0 <= m <= a.len(),
    ensures
        canon_used(a, ((31 - len) * a.len() + m) as nat) == canon_used(a, ((31 - len) * a.len()) as nat)
            + level_sum(a, len, m),
    decreases m,
{
    let n = a.len() as int;
    assert((31 - len) * n >= 0) by (nonlinear_arith)
        requires
            len <= 31,
            n > 0,
    ;
    if m > 0 {
        lemma_used_in_level(a, len, m - 1);
        let q = (31 - len) * n + m - 1;
        vstd::arithmetic::div_mod::lemma_fundamental_div_mod_converse(q, n, 31 - len, m - 1);
    }
}

/// Making codes canonical visits the lengths from 31 down.
proof fn lemma_used_by_levels(a: Seq<(u16, u32)>, low: int)
    requires
        a.len() > 0,
        0 <= low <= 31,
    ensures
        canon_used(a, ((31 - low) * a.len()) as nat) == levels_sum(a, low + 1, a.len() as int),
    decreases 31 - low,
{
    let n = a.len() as int;
    if low < 31 {
        lemma_used_by_levels(a, low + 1);
        lemma_used_in_level(a, low + 1, n);
        assert((31 - (low + 1)) * n + n == (31 - low) * n) by (nonlinear_arith);
        assert(((31 - (low + 1)) * n + n) as nat == ((31 - low) * n) as nat);
        assert(levels_sum(a, low + 1, n) == level_sum(a, low + 1, n) + levels_sum(a, low + 2, n));
    } else {
        assert((31 - low) * n == 0) by (nonlinear_arith)
            requires
                low == 31,
        ;
    }
}

/// One more entry adds its code to the lengths from `top` on, if its length is among them.
proof fn lemma_levels_step(a: Seq<(u16, u32)>, top: int, m: int)
    requires
        1 <= top <= 32,
        1 <= m <= a.len(),
    ensures
        levels_sum(a, top, m) == levels_sum(a, top, m - 1) + if top <= a[m - 1].0 <= 31 {
            code_weight(a[m - 1].0 as int)
        } else {
            0
        },
    decreases 32 - top,
{
    if top <= 31 {
        lemma_levels_step(a, top + 1, m);
    }
}

/// The code space taken in the order of canonical codes is that taken entry by entry.
pub proof fn lemma_used_is_kraft_sum(a: Seq<(u16, u32)>)
    requires
        a.len() > 0,
    ensures
        canon_used(a, (31 * a.len()) as nat) == kraft_sum(a, a.len() as int),
{
    lemma_used_by_levels(a, 0);
    lemma_levels_kraft(a, a.len() as int);
}

proof fn lemma_levels_kraft(a: Seq<(u16, u32)>, m: int)
    requires
        0 <= m <= a.len(),
    ensures
        levels_sum(a, 1, m) == kraft_sum(a, m),
    decreases m,
{
    if m > 0 {
        lemma_levels_kraft(a, m - 1);
        lemma_levels_step(a, 1, m);
    } else {
        lemma_levels_zero(a, 1);
    }
}

proof fn lemma_levels_zero(a: Seq<(u16, u32)>, top: int)
    requires
        1 <= top <= 32,
    ensures
        levels_sum(a, top, 0) == 0,
    decreases 32 - top,
{
    if top <= 31 {
        lemma_levels_zero(a, top + 1);
    }
}


// --- Huffman code lengths fill the code space ---------------------------------------------
/// The code space of the symbols `syms` under the lengths `lens`.
spec fn group_space(lens: Seq<nat>, syms: Seq<usize>) -> int
    decreases syms.len(),
{
    if syms.len() == 0 {
        0
    } else {
        group_space(lens, syms.drop_last()) + code_weight(lens[syms.last() as int] as int)
    }
}

/// The code space of the symbols of `syms` among the first `m`, summed entry by entry.
spec fn member_space(lens: Seq<nat>, syms: Seq<usize>, m: int) -> int
    decreases m,
{
    if m <= 0 {
        0
    } else {
        member_space(lens, syms, m - 1) + if syms.contains((m - 1) as usize) {
            code_weight(lens[m - 1] as int)
        } else {
            0
        }
    }
}

/// The code space of the counted symbols among the first `m`.
pub open spec fn counted_space(h: Seq<i32>, lens: Seq<nat>, m: int) -> int
    decreases m,
{
    if m <= 0 {
        0
    } else {
        counted_space(h, lens, m - 1) + if h[m - 1] > 0 {
            code_weight(lens[m - 1] as int)
        } else {
            0
        }
    }
}

/// No symbol occurs twice.
spec fn no_dup(s: Seq<usize>) -> bool {
    forall|i: int, j: int| 0 <= i < j < s.len() ==> s[i] != s[j]
}

/// The lengths grow by one for each occurrence among `syms`.
proof fn lemma_lengthen_at(lens: Seq<nat>, syms: Seq<usize>, s: int)
    requires
        no_dup(syms),
        forall|x: int| 0 <= x < syms.len() ==> (#[trigger] syms[x] as int) < lens.len(),
        0 <= s < lens.len(),
        lens.len() <= 0x10000,
    ensures
        lengthen(lens, syms).len() == lens.len(),
        lengthen(lens, syms)[s] == lens[s] + if syms.contains(s as usize) {
            1nat
        } else {
            0
        },
    decreases syms.len(),
{
    if syms.len() > 0 {
        let init = syms.drop_last();
        assert(no_dup(init));
        lemma_lengthen_at(lens, init, s);
        lemma_lengthen_at(lens, init, syms.last() as int);
        assert(syms.last() as int == syms[syms.len() - 1] as int);
        if syms.contains(s as usize) && s as usize != syms.last() {
            let x = choose|x: int| 0 <= x < syms.len() && syms[x] == s as usize;
            assert(init[x] == s as usize);
        }
        if init.contains(s as usize) {
            let x = choose|x: int| 0 <= x < init.len() && init[x] == s as usize;
            assert(syms[x] == s as usize);
        }
        if s as usize == syms.last() {
            assert(!init.contains(s as usize)) by {
                if init.contains(s as usize) {
                    let x = choose|x: int| 0 <= x < init.len() && init[x] == s as usize;
                    assert(syms[x] == syms[syms.len() - 1]);
                }
            }
            assert(syms.contains(s as usize)) by {
                assert(syms[syms.len() - 1] == s as usize);
            }
        }
    }
}

/// Lengthening never shortens.
proof fn lemma_lengthen_grows(lens: Seq<nat>, syms: Seq<usize>)
    ensures
        lengthen(lens, syms).len() == lens.len(),
        forall|s: int| 0 <= s < lens.len() ==> lens[s] <= #[trigger] lengthen(lens, syms)[s],
    decreases syms.len(),
{
    if syms.len() > 0 {
        lemma_lengthen_grows(lens, syms.drop_last());
    }
}

/// The position of the lightest group is a position of a group.
proof fn lemma_lightest_range(g: Seq<Group>, k: int)
    requires
        1 <= k,
    ensures
        0 <= lightest(g, k) < k,
    decreases k,
{
    if k > 1 {
        lemma_lightest_range(g, k - 1);
    }
}

/// Merging never shortens a code.
proof fn lemma_merges_grow(st: (Seq<Group>, Seq<nat>), k: nat, m: nat)
    requires
        k <= m,
    ensures
        merge_steps(st, m).1.len() == merge_steps(st, k).1.len(),
        forall|s: int| 0 <= s < merge_steps(st, k).1.len() ==> merge_steps(st, k).1[s] <= #[trigger] merge_steps(st, m).1[s],
    decreases m - k,
{
    if k < m {
        lemma_merges_grow(st, k, (m - 1) as nat);
        let prev = merge_steps(st, (m - 1) as nat);
        let g = prev.0;
        let a = lightest(g, g.len() as int);
        let g1 = g.remove(a);
        let b = lightest(g1, g1.len() as int);
        lemma_lengthen_grows(prev.1, g[a].1);
        lemma_lengthen_grows(lengthen(prev.1, g[a].1), g1[b].1);
    }
}

/// The code space of a concatenation is the sum of the two.
proof fn lemma_group_space_concat(lens: Seq<nat>, x: Seq<usize>, y: Seq<usize>)
    ensures
        group_space(lens, x + y) == group_space(lens, x) + group_space(lens, y),
    decreases y.len(),
{
    if y.len() == 0 {
        assert(x + y =~= x);
    } else {
        lemma_group_space_concat(lens, x, y.drop_last());
        assert((x + y).drop_last() =~= x + y.drop_last());
    }
}

/// Symbols whose lengths are unchanged keep their code space; symbols each one
/// bit longer take half of it.
proof fn lemma_group_space_change(lens: Seq<nat>, l2: Seq<nat>, syms: Seq<usize>, grow: bool)
    requires
        forall|x: int| 0 <= x < syms.len() ==> (#[trigger] syms[x] as int) < lens.len() && (syms[x] as int) < l2.len(),
        forall|x: int|
            0 <= x < syms.len() ==> #[trigger] l2[syms[x] as int] == lens[syms[x] as int] + if grow {
                1nat
            } else {
                0
            },
        forall|x: int| 0 <= x < syms.len() ==> #[trigger] l2[syms[x] as int] <= 31,
    ensures
        if grow {
            2 * group_space(l2, syms) == group_space(lens, syms)
        } else {
            group_space(l2, syms) == group_space(lens, syms)
        },
    decreases syms.len(),
{
    if syms.len() > 0 {
        let init = syms.drop_last();
        lemma_group_space_change(lens, l2, init, grow);
        let s = syms.last() as int;
        assert(syms[syms.len() - 1] as int == s);
        assert(l2[syms[syms.len() - 1] as int] <= 31);
        assert(l2[syms[syms.len() - 1] as int] == lens[syms[syms.len() - 1] as int] + if grow {
            1nat
        } else {
            0
        });
        if grow {
            vstd::arithmetic::power2::lemma_pow2_unfold((31 - lens[s]) as nat);
        }
    }
}


/// One more symbol adds its code space, where it is among the first `m`.
proof fn lemma_member_space_push(lens: Seq<nat>, syms: Seq<usize>, x: usize, m: int)
    requires
        !syms.contains(x),
        0 <= m <= lens.len(),
        lens.len() <= 0x10000,
    ensures
        member_space(lens, syms.push(x), m) == member_space(lens, syms, m) + if (x as int) < m {
            code_weight(lens[x as int] as int)
        } else {
            0
        },
    decreases m,
{
    if m > 0 {
        lemma_member_space_push(lens, syms, x, m - 1);
        let i = (m - 1) as usize;
        let p = syms.push(x);
        if p.contains(i) {
            let k = choose|k: int| 0 <= k < p.len() && p[k] == i;
            if k < syms.len() {
                assert(syms[k] == i);
            }
        }
        if syms.contains(i) {
            let k = choose|k: int| 0 <= k < syms.len() && syms[k] == i;
            assert(p[k] == i);
        }
        if i == x {
            assert(p[syms.len() as int] == x);
        }
    }
}

/// Summed entry by entry or symbol by symbol, the code space of distinct
/// symbols is the same.
proof fn lemma_member_is_group(lens: Seq<nat>, syms: Seq<usize>, m: int)
    requires
        no_dup(syms),
        forall|x: int| 0 <= x < syms.len() ==> (#[trigger] syms[x] as int) < m,
        0 <= m <= lens.len(),
        lens.len() <= 0x10000,
    ensures
        member_space(lens, syms, m) == group_space(lens, syms),
    decreases syms.len(),
{
    if syms.len() == 0 {
        lemma_member_space_empty(lens, syms, m);
    } else {
        let init = syms.drop_last();
        let x = syms.last();
        assert(no_dup(init));
        lemma_member_is_group(lens, init, m);
        assert(!init.contains(x)) by {
            if init.contains(x) {
                let k = choose|k: int| 0 <= k < init.len() && init[k] == x;
                assert(syms[k] == syms[syms.len() - 1]);
            }
        }
        assert(init.push(x) =~= syms);
        assert((syms[syms.len() - 1] as int) < m);
        lemma_member_space_push(lens, init, x, m);
    }
}

proof fn lemma_member_space_empty(lens: Seq<nat>, syms: Seq<usize>, m: int)
    requires
        syms.len() == 0,
    ensures
        member_space(lens, syms, m) == 0,
    decreases m,
{
    if m > 0 {
        lemma_member_space_empty(lens, syms, m - 1);
    }
}

/// The symbols of `x` and `y` differ.
spec fn disjoint(x: Seq<usize>, y: Seq<usize>) -> bool {
    forall|s: usize| !(#[trigger] x.contains(s) && y.contains(s))
}

/// Lengthening two disjoint groups of counted symbols by one bit each frees
/// half of their code space.
proof fn lemma_counted_change(h: Seq<i32>, lens: Seq<nat>, l2: Seq<nat>, a: Seq<usize>, b: Seq<usize>, m: int)
    requires
        0 <= m <= h.len(),
        lens.len() == h.len(),
        l2.len() == h.len(),
        h.len() <= 0x10000,
        disjoint(a, b),
        forall|s: int|
            0 <= s < h.len() ==> #[trigger] l2[s] == lens[s] + (if a.contains(s as usize) {
                1nat
            } else {
                0
            }) + (if b.contains(s as usize) {
                1nat
            } else {
                0
            }),
        forall|s: int| 0 <= s < h.len() && (a.contains(s as usize) || b.contains(s as usize)) ==> h[s] > 0,
        forall|s: int| 0 <= s < h.len() && h[s] > 0 ==> #[trigger] l2[s] <= 31,
    ensures
        2 * counted_space(h, l2, m) == 2 * counted_space(h, lens, m) - member_space(lens, a, m) - member_space(
            lens,
            b,
            m,
        ),
    decreases m,
{
    if m > 0 {
        lemma_counted_change(h, lens, l2, a, b, m - 1);
        let i = m - 1;
        assert(l2[i] == lens[i] + (if a.contains(i as usize) {
            1nat
        } else {
            0
        }) + (if b.contains(i as usize) {
            1nat
        } else {
            0
        }));
        if h[i] > 0 {
            assert(l2[i] <= 31);
            if a.contains(i as usize) || b.contains(i as usize) {
                vstd::arithmetic::power2::lemma_pow2_unfold((31 - lens[i]) as nat);
            }
        }
    }
}

/// What holds of the groups and the lengths while merging: every group holds
/// distinct counted symbols that fill the code space, groups are disjoint,
/// and the counted symbols take the code space once per group.
spec fn merge_inv(h: Seq<i32>, g: Seq<Group>, lens: Seq<nat>) -> bool {
    &&& lens.len() == h.len()
    &&& h.len() <= 0x10000
    &&& forall|q: int| 0 <= q < g.len() ==> #[trigger] group_ok(h, lens, g[q].1)
    &&& forall|q1: int, q2: int| 0 <= q1 < q2 < g.len() ==> disjoint(#[trigger] g[q1].1, #[trigger] g[q2].1)
    &&& counted_space(h, lens, h.len() as int) == g.len() * vstd::arithmetic::power2::pow2(31)
}

/// A group holds distinct counted symbols that fill the code space.
spec fn group_ok(h: Seq<i32>, lens: Seq<nat>, syms: Seq<usize>) -> bool {
    &&& no_dup(syms)
    &&& forall|x: int| 0 <= x < syms.len() ==> (#[trigger] syms[x] as int) < h.len() && h[syms[x] as int] > 0
    &&& group_space(lens, syms) == vstd::arithmetic::power2::pow2(31)
}

/// Where the group at `y` came from, after removing those at `a` and then `b`.
spec fn kept_origin(a: int, b: int, y: int) -> int {
    let x = if y < b {
        y
    } else {
        y + 1
    };
    if x < a {
        x
    } else {
        x + 1
    }
}


/// The groups left after removing those at `a` and then at `b` are groups
/// from other positions, in order.
proof fn lemma_kept_groups(g: Seq<Group>, a: int, b: int, y: int)
    requires
        0 <= a < g.len(),
        0 <= b < g.len() - 1,
        0 <= y < g.len() - 2,
    ensures
        g.remove(a).remove(b)[y] == g[kept_origin(a, b, y)],
        0 <= kept_origin(a, b, y) < g.len(),
        kept_origin(a, b, y) != a,
        kept_origin(a, b, y) != if b < a {
            b
        } else {
            b + 1
        },
{
    let g1 = g.remove(a);
    let x = if y < b {
        y
    } else {
        y + 1
    };
    assert(g1.remove(b)[y] == g1[x]);
    assert(g1[x] == g[kept_origin(a, b, y)]);
}

/// One merge keeps what holds while merging, and leaves one group less.
#[verifier::rlimit(80)]
proof fn lemma_merge_keeps(h: Seq<i32>, g: Seq<Group>, lens: Seq<nat>)
    requires
        merge_inv(h, g, lens),
        g.len() >= 2,
        forall|s: int| 0 <= s < h.len() && h[s] > 0 ==> #[trigger] merge_step((g, lens)).1[s] <= 31,
    ensures
        merge_inv(h, merge_step((g, lens)).0, merge_step((g, lens)).1),
        merge_step((g, lens)).0.len() == g.len() - 1,
{
    let n = g.len() as int;
    let a = lightest(g, n);
    lemma_lightest_range(g, n);
    let g1 = g.remove(a);
    let b = lightest(g1, g1.len() as int);
    lemma_lightest_range(g1, g1.len() as int);
    let bb = if b < a {
        b
    } else {
        b + 1
    };
    assert(g1[b] == g[bb]);
    let ga = g[a].1;
    let gb = g[bb].1;
    assert(group_ok(h, lens, ga));
    assert(group_ok(h, lens, gb));
    assert(disjoint(ga, gb)) by {
        if a < bb {
            assert(disjoint(g[a].1, g[bb].1));
        } else {
            assert(disjoint(g[bb].1, g[a].1));
        }
    }
    let l1 = lengthen(lens, ga);
    let l2 = lengthen(l1, gb);
    let st2 = merge_step((g, lens));
    assert(st2.1 == l2);
    let g2 = g1.remove(b);
    let merged = ga + gb;
    assert(st2.0 == g2.push((g[a].0 + g1[b].0, merged)));
    lemma_lengthen_grows(lens, ga);
    lemma_lengthen_grows(l1, gb);
    assert forall|s: int| 0 <= s < h.len() implies #[trigger] l2[s] == lens[s] + (if ga.contains(s as usize) {
        1nat
    } else {
        0
    }) + (if gb.contains(s as usize) {
        1nat
    } else {
        0
    }) by {
        lemma_lengthen_at(lens, ga, s);
        lemma_lengthen_at(l1, gb, s);
    }
    assert forall|s: int| 0 <= s < h.len() && (ga.contains(s as usize) || gb.contains(s as usize)) implies h[s]
        > 0 by {
        if ga.contains(s as usize) {
            let x = choose|x: int| 0 <= x < ga.len() && ga[x] == s as usize;
            assert(h[ga[x] as int] > 0);
        } else {
            let x = choose|x: int| 0 <= x < gb.len() && gb[x] == s as usize;
            assert(h[gb[x] as int] > 0);
        }
    }
    // the two merged groups take half their space each
    assert forall|x: int| 0 <= x < ga.len() implies #[trigger] l2[ga[x] as int] == lens[ga[x] as int] + 1nat
        && l2[ga[x] as int] <= 31 by {
        let s = ga[x] as int;
        assert(ga.contains(ga[x]));
        assert(!gb.contains(ga[x]));
        assert(l2[s] == lens[s] + (if ga.contains(s as usize) {
            1nat
        } else {
            0
        }) + (if gb.contains(s as usize) {
            1nat
        } else {
            0
        }));
    }
    assert forall|x: int| 0 <= x < gb.len() implies #[trigger] l2[gb[x] as int] == lens[gb[x] as int] + 1nat
        && l2[gb[x] as int] <= 31 by {
        let s = gb[x] as int;
        assert(gb.contains(gb[x]));
        assert(!ga.contains(gb[x]));
        assert(l2[s] == lens[s] + (if ga.contains(s as usize) {
            1nat
        } else {
            0
        }) + (if gb.contains(s as usize) {
            1nat
        } else {
            0
        }));
    }
    lemma_group_space_change(lens, l2, ga, true);
    lemma_group_space_change(lens, l2, gb, true);
    lemma_group_space_concat(l2, ga, gb);
    vstd::arithmetic::power2::lemma2_to64();
    assert(group_space(l2, merged) == vstd::arithmetic::power2::pow2(31));
    // the counted symbols take the space of one group less
    lemma_counted_change(h, lens, l2, ga, gb, h.len() as int);
    lemma_member_is_group(lens, ga, h.len() as int);
    lemma_member_is_group(lens, gb, h.len() as int);
    assert(counted_space(h, l2, h.len() as int) == (n - 1) * vstd::arithmetic::power2::pow2(31));
    // the merged group
    assert(group_ok(h, l2, merged)) by {
        assert forall|i: int, j: int| 0 <= i < j < merged.len() implies merged[i] != merged[j] by {
            if j < ga.len() {
            } else if i >= ga.len() {
                assert(merged[i] == gb[i - ga.len()]);
                assert(merged[j] == gb[j - ga.len()]);
            } else {
                assert(merged[i] == ga[i]);
                assert(merged[j] == gb[j - ga.len()]);
                assert(ga.contains(ga[i]));
                assert(gb.contains(gb[j - ga.len()]));
            }
        }
        assert forall|x: int| 0 <= x < merged.len() implies (#[trigger] merged[x] as int) < h.len() && h[merged[x] as int]
            > 0 by {
            if x < ga.len() {
                assert(merged[x] == ga[x]);
            } else {
                assert(merged[x] == gb[x - ga.len()]);
            }
        }
    }
    // the groups kept
    let ng = st2.0;
    assert forall|y: int| 0 <= y < g2.len() implies #[trigger] group_ok(h, l2, g2[y].1) && disjoint(g2[y].1, ga)
        && disjoint(g2[y].1, gb) by {
        lemma_kept_groups(g, a, b, y);
        let c = kept_origin(a, b, y);
        let gc = g[c].1;
        assert(group_ok(h, lens, gc));
        assert(disjoint(gc, ga)) by {
            if c < a {
                assert(disjoint(g[c].1, g[a].1));
            } else {
                assert(disjoint(g[a].1, g[c].1));
            }
        }
        assert(disjoint(gc, gb)) by {
            if c < bb {
                assert(disjoint(g[c].1, g[bb].1));
            } else {
                assert(disjoint(g[bb].1, g[c].1));
            }
        }
        assert forall|x: int| 0 <= x < gc.len() implies #[trigger] l2[gc[x] as int] == lens[gc[x] as int] + 0nat
            && l2[gc[x] as int] <= 31 by {
            let s = gc[x] as int;
            assert(gc.contains(gc[x]));
            assert(!ga.contains(gc[x]));
            assert(!gb.contains(gc[x]));
            assert(l2[s] == lens[s] + (if ga.contains(s as usize) {
                1nat
            } else {
                0
            }) + (if gb.contains(s as usize) {
                1nat
            } else {
                0
            }));
        }
        lemma_group_space_change(lens, l2, gc, false);
    }
    assert forall|q: int| 0 <= q < ng.len() implies #[trigger] group_ok(h, l2, ng[q].1) by {
        if q < g2.len() {
            assert(ng[q] == g2[q]);
        } else {
            assert(ng[q].1 == merged);
        }
    }
    assert forall|q1: int, q2: int| 0 <= q1 < q2 < ng.len() implies disjoint(#[trigger] ng[q1].1, #[trigger] ng[q2].1) by {
        assert(ng[q1] == g2[q1]);
        if q2 < g2.len() {
            assert(ng[q2] == g2[q2]);
            lemma_kept_groups(g, a, b, q1);
            lemma_kept_groups(g, a, b, q2);
            assert(kept_origin(a, b, q1) < kept_origin(a, b, q2));
            assert(disjoint(g[kept_origin(a, b, q1)].1, g[kept_origin(a, b, q2)].1));
        } else {
            assert(ng[q2].1 == merged);
            assert(disjoint(g2[q1].1, ga) && disjoint(g2[q1].1, gb));
            assert forall|s: usize| !(#[trigger] ng[q1].1.contains(s) && ng[q2].1.contains(s)) by {
                if merged.contains(s) {
                    let k = choose|k: int| 0 <= k < merged.len() && merged[k] == s;
                    if k < ga.len() {
                        assert(ga[k] == s);
                        assert(ga.contains(s));
                    } else {
                        assert(gb[k - ga.len()] == s);
                        assert(gb.contains(s));
                    }
                }
            }
        }
    }
}


/// The leaf groups: one counted symbol each, in increasing order, and the
/// counted symbols take the whole code space once per group with no code yet.
proof fn lemma_leaf_space(h: Seq<i32>, k: int)
    requires
        0 <= k <= h.len(),
        h.len() <= 0x10000,
    ensures
        forall|q: int|
            0 <= q < leaf_groups(h, k).len() ==> (#[trigger] leaf_groups(h, k)[q]).1.len() == 1 && (leaf_groups(
                h,
                k,
            )[q].1[0] as int) < k && h[leaf_groups(h, k)[q].1[0] as int] > 0,
        forall|q1: int, q2: int|
            0 <= q1 < q2 < leaf_groups(h, k).len() ==> (#[trigger] leaf_groups(h, k)[q1]).1[0] < (
            #[trigger] leaf_groups(h, k)[q2]).1[0],
        counted_space(h, Seq::new(h.len(), |i: int| 0nat), k) == leaf_groups(h, k).len()
            * vstd::arithmetic::power2::pow2(31),
    decreases k,
{
    if k > 0 {
        lemma_leaf_space(h, k - 1);
        vstd::arithmetic::power2::lemma2_to64();
        let p = leaf_groups(h, k - 1);
        let g = leaf_groups(h, k);
        if h[k - 1] > 0 {
            let leaf = (h[k - 1] as int, seq![(k - 1) as usize]);
            assert(g == p.push(leaf));
            assert forall|q: int| 0 <= q < g.len() implies (#[trigger] g[q]).1.len() == 1 && (g[q].1[0] as int) < k
                && h[g[q].1[0] as int] > 0 by {
                if q < p.len() {
                    assert(g[q] == p[q]);
                } else {
                    assert(g[q] == leaf);
                }
            }
            assert forall|q1: int, q2: int| 0 <= q1 < q2 < g.len() implies (#[trigger] g[q1]).1[0] < (
            #[trigger] g[q2]).1[0] by {
                assert(g[q1] == p[q1]);
                if q2 < p.len() {
                    assert(g[q2] == p[q2]);
                } else {
                    assert(g[q2] == leaf);
                }
            }
        } else {
            assert(g == p);
        }
    }
}

/// Before any merge, every leaf group holds one counted symbol filling the
/// code space, and the groups are disjoint.
proof fn lemma_leaf_inv(h: Seq<i32>)
    requires
        h.len() <= 0x10000,
    ensures
        merge_inv(h, leaf_groups(h, h.len() as int), Seq::new(h.len(), |i: int| 0nat)),
{
    let k = h.len() as int;
    let g = leaf_groups(h, k);
    let z = Seq::new(h.len(), |i: int| 0nat);
    lemma_leaf_space(h, k);
    vstd::arithmetic::power2::lemma2_to64();
    assert forall|q: int| 0 <= q < g.len() implies #[trigger] group_ok(h, z, g[q].1) by {
        let syms = g[q].1;
        assert(syms.drop_last().len() == 0);
        assert(group_space(z, syms.drop_last()) == 0);
        assert(syms.last() == syms[0]);
        assert(z[syms.last() as int] == 0);
        assert(group_space(z, syms) == code_weight(0));
    }
    assert forall|q1: int, q2: int| 0 <= q1 < q2 < g.len() implies disjoint(#[trigger] g[q1].1, #[trigger] g[q2].1) by {
        assert forall|s: usize| !(#[trigger] g[q1].1.contains(s) && g[q2].1.contains(s)) by {
            if g[q1].1.contains(s) && g[q2].1.contains(s) {
                let x1 = choose|x: int| 0 <= x < g[q1].1.len() && g[q1].1[x] == s;
                let x2 = choose|x: int| 0 <= x < g[q2].1.len() && g[q2].1[x] == s;
                assert(g[q1].1[0] < g[q2].1[0]);
            }
        }
    }
}

/// Every merge up to the last keeps what holds while merging.
proof fn lemma_merges_inv(h: Seq<i32>, k: nat)
    requires
        codes_computable(h),
        lengths_fit(h),
        k <= leaf_count(h) - 1,
    ensures
        ({
            let st = merge_steps((leaf_groups(h, h.len() as int), Seq::new(h.len(), |i: int| 0nat)), k);
            &&& merge_inv(h, st.0, st.1)
            &&& st.0.len() == leaf_count(h) - k
        }),
    decreases k,
{
    let st0 = (leaf_groups(h, h.len() as int), Seq::new(h.len(), |i: int| 0nat));
    if k == 0 {
        lemma_leaf_inv(h);
    } else {
        lemma_merges_inv(h, (k - 1) as nat);
        let prev = merge_steps(st0, (k - 1) as nat);
        let last = (leaf_count(h) - 1) as nat;
        lemma_merges_grow(st0, k, last);
        lemma_merges_grow(st0, 0, k);
        assert(merge_steps(st0, last).1 == huffman_lengths(h));
        assert(merge_step(prev) == merge_steps(st0, k));
        assert forall|s: int| 0 <= s < h.len() && h[s] > 0 implies #[trigger] merge_step(prev).1[s] <= 31 by {
            assert(merge_steps(st0, k).1[s] <= merge_steps(st0, last).1[s]);
            assert(huffman_lengths(h)[s] <= 31);
        }
        lemma_merge_keeps(h, prev.0, prev.1);
    }
}

/// The code space of the counted symbols is at least one unit per symbol, and
/// the full space of the code of a counted symbol `i`.
proof fn lemma_counted_lower(h: Seq<i32>, lens: Seq<nat>, m: int, i: int)
    requires
        0 <= m <= h.len(),
        0 <= i < h.len(),
        h[i] > 0,
    ensures
        counted_space(h, lens, m) >= leaf_groups(h, m).len() - (if i < m {
            1int
        } else {
            0
        }) + (if i < m {
            code_weight(lens[i] as int)
        } else {
            0
        }),
    decreases m,
{
    if m > 0 {
        lemma_counted_lower(h, lens, m - 1, i);
        vstd::arithmetic::power2::lemma_pow2_pos((31 - lens[m - 1]) as nat);
    }
}

/// The code lengths of the leaf table, entry by entry, take the space the
/// counted symbols take.
proof fn lemma_leaf_table_kraft(h: Seq<i32>, m: int)
    requires
        0 <= m <= h.len(),
        forall|i: int| 0 <= i < h.len() && h[i] > 0 ==> 1 <= #[trigger] huffman_lengths(h)[i] <= 31,
    ensures
        kraft_sum(leaf_table(Seq::empty(), h), m) == counted_space(h, huffman_lengths(h), m),
    decreases m,
{
    if m > 0 {
        lemma_leaf_table_kraft(h, m - 1);
        if h[m - 1] > 0 {
            assert(1 <= huffman_lengths(h)[m - 1] <= 31);
        }
    }
}

/// The Huffman code lengths of a histogram with two counted symbols or more,
/// all of at most 31 bits, fill the code space exactly: every counted symbol
/// has a code, and the sum over them of 2 to the minus its length is 1.
pub proof fn lemma_huffman_fills_code_space(h: Seq<i32>)
    requires
        codes_computable(h),
        lengths_fit(h),
    ensures
        forall|i: int| 0 <= i < h.len() && h[i] > 0 ==> 1 <= #[trigger] huffman_lengths(h)[i] <= 31,
        fills_code_space(leaf_table(Seq::empty(), h)),
{
    let last = (leaf_count(h) - 1) as nat;
    lemma_merges_inv(h, last);
    let st0 = (leaf_groups(h, h.len() as int), Seq::new(h.len(), |i: int| 0nat));
    let fin = merge_steps(st0, last);
    assert(fin.1 == huffman_lengths(h));
    let l = huffman_lengths(h);
    vstd::arithmetic::power2::lemma2_to64();
    assert(counted_space(h, l, h.len() as int) == vstd::arithmetic::power2::pow2(31));
    assert forall|i: int| 0 <= i < h.len() && h[i] > 0 implies 1 <= #[trigger] huffman_lengths(h)[i] <= 31 by {
        assert(huffman_lengths(h)[i] <= 31);
        lemma_counted_lower(h, l, h.len() as int, i);
        if l[i] == 0 {
            assert(code_weight(0) == 0x8000_0000);
        }
    }
    lemma_leaf_table_kraft(h, h.len() as int);
    let t0 = leaf_table(Seq::empty(), h);
    lemma_used_is_kraft_sum(t0);
}


/// The first entry with a code comes no later than any entry with a code.
proof fn lemma_first_coded_at_most(t: Seq<(u16, u32)>, k: int, i: int)
    requires
        0 <= k <= i < t.len(),
        t[i].0 != 0,
    ensures
        first_coded(t, k) <= i,
    decreases i - k,
{
    if k < i && t[k].0 == 0 {
        lemma_first_coded_at_most(t, k + 1, i);
    }
}

/// A fresh Huffman coder codes non-empty bytes whose histogram gives codes of
/// at most 31 bits.
pub proof fn lemma_fresh_coder_codes(data: Seq<u8>)
    requires
        0 < data.len() <= i32::MAX,
        codes_computable(byte_histogram(data)),
        lengths_fit(byte_histogram(data)),
    ensures
        huffman_bytes(data) is Some,
{
    let h = byte_histogram(data);
    let lt = leaf_table(Seq::empty(), h);
    let t = huffman_table(Seq::empty(), h);
    lemma_huffman_table_facts(Seq::empty(), h);
    lemma_huffman_fills_code_space(h);
    lemma_canon_len(lt, (31 * 256) as nat);
    assert forall|j: int| 0 <= j < data.len() implies t[data[j] as int].0 != 0 by {
        let v = data[j] as int;
        lemma_counted_occurs(data, v, j, data.len() as int);
        lemma_byte_count_range(data, v, data.len() as int);
        assert(h[v] > 0);
    }
    assert(all_coded(t, data));
    let v0 = data[0] as int;
    assert(t[v0].0 != 0);
    lemma_first_coded_at_most(t, 0, v0);
    let r = code_range(t).unwrap();
    lemma_first_coded(t, 0);
    lemma_last_coded_at_least(t, r.0, 255);
    lemma_last_coded_below(t, 255);
    let lens = range_lengths(t, r.0, r.1);
    assert forall|k: int| 0 <= k < lens.len() implies #[trigger] lens[k] <= 31u32 by {
        let i = r.0 + k;
        assert(t[i].0 == lt[i].0);
        if h[i] > 0 {
            assert(huffman_lengths(h)[i] <= 31);
        }
    }
    crate::bit_stuffer2::lemma_seq_max_le(lens, 31);
    let m = crate::bit_stuffer2::seq_max(lens);
    crate::bit_math::lemma_u32_shifts(m, 0);
    crate::bit_stuffer2::lemma_width_below(m, 8);
}


/// Tables with the same code lengths take the same code space.
proof fn lemma_kraft_same_lengths(a: Seq<(u16, u32)>, b: Seq<(u16, u32)>, m: int)
    requires
        0 <= m <= a.len(),
        a.len() == b.len(),
        forall|i: int| 0 <= i < a.len() ==> (#[trigger] a[i]).0 == b[i].0,
    ensures
        kraft_sum(a, m) == kraft_sum(b, m),
    decreases m,
{
    if m > 0 {
        lemma_kraft_same_lengths(a, b, m - 1);
        assert(a[m - 1].0 == b[m - 1].0);
    }
}

/// The code table a fresh coder computes for a histogram with two counted
/// symbols or more, whose codes fit in 31 bits: exactly the counted symbols
/// have a code, no code is the start of another, and the codes fill the code
/// space (the sum over them of 2 to the minus their length is 1).
pub proof fn lemma_huffman_code_table(h: Seq<i32>)
    requires
        codes_computable(h),
        lengths_fit(h),
    ensures
        huffman_table(Seq::empty(), h).len() == h.len(),
        forall|i: int| 0 <= i < h.len() ==> ((#[trigger] huffman_table(Seq::empty(), h)[i]).0 != 0 <==> h[i] > 0),
        prefix_free(huffman_table(Seq::empty(), h)),
        kraft_sum(huffman_table(Seq::empty(), h), h.len() as int) == vstd::arithmetic::power2::pow2(31),
{
    let lt = leaf_table(Seq::empty(), h);
    let t = huffman_table(Seq::empty(), h);
    let n = h.len() as int;
    lemma_huffman_fills_code_space(h);
    lemma_canon_len(lt, (31 * n) as nat);
    assert forall|i: int| 0 <= i < n implies (#[trigger] lt[i]).0 <= 31 by {
        if h[i] > 0 {
            assert(huffman_lengths(h)[i] <= 31);
        }
    }
    lemma_canonical_prefix_free(lt);
    assert forall|i: int| 0 <= i < n implies ((#[trigger] t[i]).0 != 0 <==> h[i] > 0) by {
        assert(t[i].0 == lt[i].0);
        if h[i] > 0 {
            assert(1 <= huffman_lengths(h)[i] <= 31);
        }
    }
    lemma_used_is_kraft_sum(lt);
    lemma_kraft_same_lengths(t, lt, n);
}

} // verus!
