//! Bit-level vocabulary shared by the codecs: single bits of words and bytes,
//! numbers assembled from runs of bits, and the little-endian layout of words.
use vstd::prelude::*;
use vstd::arithmetic::power2::{pow2, lemma_pow2_unfold, lemma2_to64};

verus! {

/// Bit `b` (0 = least significant) of a 32-bit word.
pub open spec fn bit32(x: u32, b: u32) -> bool {
    (x >> b) & 1u32 == 1u32
}

/// The number whose bit `r` is `bit(start + r)` for every `r < width`, with all
/// higher bits clear.
pub open spec fn bits_value(bit: spec_fn(int) -> bool, start: int, width: nat) -> nat
    decreases width,
{
    if width == 0 {
        0
    } else {
        (if bit(start) { 1nat } else { 0nat }) + 2 * bits_value(bit, start + 1, (width - 1) as nat)
    }
}

/// Bit `k` of a byte string read as one little-endian number; bits past the end are clear.
pub open spec fn byte_bit(bytes: Seq<u8>, k: int) -> bool {
    0 <= k < bytes.len() * 8 && bit32(bytes[k / 8] as u32, (k % 8) as u32)
}

/// The little-endian value of `nb` bytes of `bytes` from `start`.
pub open spec fn le_value(bytes: Seq<u8>, start: int, nb: nat) -> nat
    decreases nb,
{
    if nb == 0 {
        0
    } else {
        bytes[start] as nat + 256 * le_value(bytes, start + 1, (nb - 1) as nat)
    }
}

/// The `nb` least significant bytes of `v`, least significant first.
pub open spec fn le_bytes(v: nat, nb: nat) -> Seq<u8>
    decreases nb,
{
    if nb == 0 {
        Seq::empty()
    } else {
        seq![(v % 256) as u8] + le_bytes(v / 256, (nb - 1) as nat)
    }
}

pub proof fn lemma_bits_value_bound(bit: spec_fn(int) -> bool, start: int, width: nat)
    ensures
        bits_value(bit, start, width) < pow2(width),
    decreases width,
{
    if width > 0 {
        lemma_bits_value_bound(bit, start + 1, (width - 1) as nat);
        lemma_pow2_unfold(width);
    } else {
        lemma2_to64();
    }
}

proof fn lemma_bit_of_double_plus(a: u32, v: u32, r: u32)
    requires
        a <= 1,
        v < 0x8000_0000,
        r < 32,
    ensures
        r == 0 ==> (bit32((a + 2 * v) as u32, r) <==> a == 1),
        r > 0 ==> (bit32((a + 2 * v) as u32, r) <==> bit32(v, (r - 1) as u32)),
{
    assert(r == 0 ==> ((((a + 2 * v) as u32 >> r) & 1u32 == 1u32) <==> a == 1)) by (bit_vector)
        requires
            a <= 1,
            v < 0x8000_0000,
            r < 32,
    ;
    assert(r > 0 ==> ((((a + 2 * v) as u32 >> r) & 1u32 == 1u32) <==> ((v >> ((r - 1) as u32))
        & 1u32 == 1u32))) by (bit_vector)
        requires
            a <= 1,
            v < 0x8000_0000,
            r < 32,
    ;
}

/// The bits of a number assembled by `bits_value` are the bits it was assembled from.
pub proof fn lemma_bits_value_bits(bit: spec_fn(int) -> bool, start: int, width: nat)
    requires
        width <= 32,
    ensures
        bits_value(bit, start, width) < 0x1_0000_0000,
        forall|r: u32|
            r < 32 ==> (#[trigger] bit32(bits_value(bit, start, width) as u32, r) <==> (r < width
                && bit(start + r))),
    decreases width,
{
    lemma_bits_value_bound(bit, start, width);
    lemma2_to64();
    if width <= 31 {
        vstd::arithmetic::power2::lemma_pow2_strictly_increases(width, 32);
    }
    if width == 0 {
        assert forall|r: u32| r < 32 implies !bit32(0u32, r) by {
            lemma_u32_shifts(0, r);
        }
    } else {
        let rest = bits_value(bit, start + 1, (width - 1) as nat);
        lemma_bits_value_bits(bit, start + 1, (width - 1) as nat);
        lemma_bits_value_bound(bit, start + 1, (width - 1) as nat);
        if width <= 32 {
            vstd::arithmetic::power2::lemma_pow2_strictly_increases((width - 1) as nat, 32);
        }
        assert(pow2(31) == 0x8000_0000);
        if width - 1 < 31 {
            vstd::arithmetic::power2::lemma_pow2_strictly_increases((width - 1) as nat, 31);
        }
        assert(rest < 0x8000_0000);
        let a: u32 = if bit(start) { 1 } else { 0 };
        let v = rest as u32;
        assert(bits_value(bit, start, width) == a + 2 * v);
        assert forall|r: u32| r < 32 implies (#[trigger] bit32(bits_value(bit, start, width) as u32, r)
            <==> (r < width && bit(start + r))) by {
            lemma_bit_of_double_plus(a, v, r);
            if r > 0 {
                assert(bit32(v, (r - 1) as u32) <==> ((r - 1) < width - 1 && bit(start + 1 + (r - 1))));
            }
        }
    }
}

proof fn lemma_shift_step(x: u32, y: u32, k: u32)
    requires
        1 <= k <= 31,
        x >> k == y >> k,
        bit32(x, (k - 1) as u32) == bit32(y, (k - 1) as u32),
    ensures
        x >> ((k - 1) as u32) == y >> ((k - 1) as u32),
{
    assert(x >> ((k - 1) as u32) == y >> ((k - 1) as u32)) by (bit_vector)
        requires
            1 <= k <= 31,
            x >> k == y >> k,
            ((x >> ((k - 1) as u32)) & 1u32 == 1u32) == ((y >> ((k - 1) as u32)) & 1u32 == 1u32),
    ;
}

proof fn lemma_eq_from_bits_below(x: u32, y: u32, k: u32)
    requires
        k <= 31,
        x >> k == y >> k,
        forall|r: u32| r < k ==> #[trigger] bit32(x, r) == bit32(y, r),
    ensures
        x == y,
    decreases k,
{
    if k == 0 {
        lemma_u32_shifts(x, 0);
        lemma_u32_shifts(y, 0);
    } else {
        lemma_shift_step(x, y, k);
        lemma_eq_from_bits_below(x, y, (k - 1) as u32);
    }
}

/// Two words with the same 32 bits are equal.
pub proof fn lemma_eq_from_bits(x: u32, y: u32)
    requires
        forall|r: u32| r < 32 ==> #[trigger] bit32(x, r) == bit32(y, r),
    ensures
        x == y,
{
    assert(bit32(x, 31) == bit32(y, 31));
    assert(x >> 31u32 == y >> 31u32) by (bit_vector)
        requires
            ((x >> 31u32) & 1u32 == 1u32) == ((y >> 31u32) & 1u32 == 1u32),
    ;
    lemma_eq_from_bits_below(x, y, 31);
}

/// A word whose bits are those of a `bits_value` run is that value.
pub proof fn lemma_value_from_bits(x: u32, bit: spec_fn(int) -> bool, start: int, width: nat)
    requires
        width <= 32,
        forall|r: u32| r < 32 ==> (#[trigger] bit32(x, r) <==> (r < width && bit(start + r))),
    ensures
        x as nat == bits_value(bit, start, width),
{
    lemma_bits_value_bits(bit, start, width);
    let v = bits_value(bit, start, width) as u32;
    assert forall|r: u32| r < 32 implies #[trigger] bit32(x, r) == bit32(v, r) by {}
    lemma_eq_from_bits(x, v);
}

/// `bits_value` only looks at the bits it is asked for.
pub proof fn lemma_bits_value_ext(f: spec_fn(int) -> bool, g: spec_fn(int) -> bool, start: int, width: nat)
    requires
        forall|k: int| start <= k < start + width ==> #[trigger] f(k) == g(k),
    ensures
        bits_value(f, start, width) == bits_value(g, start, width),
    decreases width,
{
    if width > 0 {
        lemma_bits_value_ext(f, g, start + 1, (width - 1) as nat);
    }
}

/// Shifts of a 32-bit word by small amounts, as the width computations use them.
pub proof fn lemma_u32_shifts(v: u32, k: u32)
    ensures
        v >> 0u32 == v,
        (0u32 >> k) & 1u32 == 0u32,
        v >> 1u32 == v / 2,
        (v >> 1u32) >> 31u32 == 0,
        k < 32 ==> ((v >> 1u32) >> k == 0 ==> v >> ((k + 1) as u32) == 0),
        v >> 31u32 == 0 ==> (v >> 1u32) >> 30u32 == 0,
        1 <= k <= 31 && v >> k == 0 ==> (v >> 1u32) >> ((k - 1) as u32) == 0,
        v <= 0xFFFF ==> v >> 16u32 == 0,
        v <= 255 ==> v >> 8u32 == 0,
        k <= 8 && v >> k == 0 ==> v < 256,
        v <= 0x7FFF_FFFF ==> v >> 31u32 == 0,
{
    assert(v >> 0u32 == v && (0u32 >> k) & 1u32 == 0u32 && v >> 1u32 == v / 2 && (v >> 1u32) >> 31u32
        == 0 && (k < 32 ==> ((v >> 1u32) >> k == 0 ==> v >> ((k + 1) as u32) == 0)) && (v >> 31u32 == 0
        ==> (v >> 1u32) >> 30u32 == 0) && (1 <= k <= 31 && v >> k == 0 ==> (v >> 1u32) >> ((k
        - 1) as u32) == 0) && (v <= 0xFFFF ==> v >> 16u32 == 0) && (v <= 255 ==> v >> 8u32 == 0) && (k
        <= 8 && v >> k == 0 ==> v < 256) && (v <= 0x7FFF_FFFF ==> v >> 31u32 == 0)) by (bit_vector);
}

/// A little-endian number reads the same from any bytes that agree on it.
pub proof fn lemma_le_value_same(a: Seq<u8>, b: Seq<u8>, start: int, nb: nat)
    requires
        forall|i: int| start <= i < start + nb ==> a[i] == b[i],
    ensures
        le_value(a, start, nb) == le_value(b, start, nb),
    decreases nb,
{
    if nb > 0 {
        lemma_le_value_same(a, b, start + 1, (nb - 1) as nat);
    }
}

} // verus!