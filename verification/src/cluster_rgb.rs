//! ClusterRGB - Color compression using quantization/clustering
//!
//! After the 16-byte top header: the blob size (8 bytes), the number of points
//! (4 bytes), the number of colormap entries (2 bytes), the color lookup method
//! and the color index compression method (1 byte each); then either the raw
//! colors, or the colormap followed by one colormap index per point.
use vstd::prelude::*;
use crate::bit_math::{le_value, le_bytes};
use crate::bit_mask::BitMask;
use crate::blob::{HEADER_SIZE, seal, seal_blob, check_blob, checked_blob_size, checked_blob_error,
    blob_size_result, blob_size_error, read_u16, read_u32, push_u16, push_u32,
    get_blob_size};
use crate::error::{LepccError, Result, failed, wrong_param, is_failed, is_wrong_param, is_too_small};
use crate::text::{decimal, push_decimal, push_str_lit};
use crate::types::{Byte, RGB};

verus! {

/// The file key of color blobs: `ClusterRGB` in ASCII.
pub open spec fn cluster_rgb_key() -> Seq<u8> {
    seq![0x43u8, 0x6c, 0x75, 0x73, 0x74, 0x65, 0x72, 0x52, 0x47, 0x42]
}

fn file_key() -> (k: [u8; 10])
    ensures
        k@ == cluster_rgb_key(),
{
    let k: [u8; 10] = [0x43u8, 0x6c, 0x75, 0x73, 0x74, 0x65, 0x72, 0x52, 0x47, 0x42];
    assert(k@ =~= cluster_rgb_key());
    k
}

/// How colors are stored: raw per point, or through a colormap.
#[derive(Debug, Clone, Copy, PartialEq, Eq, Structural)]
pub enum ColorLookupMethod {
    NoColormap,
    Lossless,
    Array3D,
}

/// How the colormap indexes are stored.
#[derive(Debug, Clone, Copy, PartialEq, Eq, Structural)]
pub enum ColorIndexCompressionMethod {
    NoCompression,
    AllConst,
    HuffmanCodec,
}

/// The byte that stands for a lookup method.
pub open spec fn lookup_code(m: ColorLookupMethod) -> u8 {
    match m {
        ColorLookupMethod::NoColormap => 0,
        ColorLookupMethod::Lossless => 1,
        ColorLookupMethod::Array3D => 2,
    }
}

/// The byte that stands for an index compression method.
pub open spec fn compression_code(m: ColorIndexCompressionMethod) -> u8 {
    match m {
        ColorIndexCompressionMethod::NoCompression => 0,
        ColorIndexCompressionMethod::AllConst => 1,
        ColorIndexCompressionMethod::HuffmanCodec => 2,
    }
}

fn lookup_byte(m: ColorLookupMethod) -> (b: u8)
    ensures
        b == lookup_code(m),
{
    match m {
        ColorLookupMethod::NoColormap => 0,
        ColorLookupMethod::Lossless => 1,
        ColorLookupMethod::Array3D => 2,
    }
}

fn compression_byte(m: ColorIndexCompressionMethod) -> (b: u8)
    ensures
        b == compression_code(m),
{
    match m {
        ColorIndexCompressionMethod::NoCompression => 0,
        ColorIndexCompressionMethod::AllConst => 1,
        ColorIndexCompressionMethod::HuffmanCodec => 2,
    }
}

/// The lookup method stored as `v`.
pub fn lookup_method_from_byte(v: u8) -> (r: Result<ColorLookupMethod>)
    ensures
        v <= 2 ==> (r matches Ok(m) && lookup_code(m) == v),
        v > 2 ==> (r matches Err(e) && is_wrong_param(e, "Invalid color lookup method: "@ + decimal(v as nat))),
{
    match v {
        0 => Ok(ColorLookupMethod::NoColormap),
        1 => Ok(ColorLookupMethod::Lossless),
        2 => Ok(ColorLookupMethod::Array3D),
        _ => {
            let mut msg = String::from_str("Invalid color lookup method: ");
            push_decimal(&mut msg, v as u64);
            Err(LepccError::WrongParam(msg))
        },
    }
}

/// The index compression method stored as `v`.
pub fn compression_method_from_byte(v: u8) -> (r: Result<ColorIndexCompressionMethod>)
    ensures
        v <= 2 ==> (r matches Ok(m) && compression_code(m) == v),
        v > 2 ==> (r matches Err(e) && is_wrong_param(e, "Invalid compression method: "@ + decimal(v as nat))),
{
    match v {
        0 => Ok(ColorIndexCompressionMethod::NoCompression),
        1 => Ok(ColorIndexCompressionMethod::AllConst),
        2 => Ok(ColorIndexCompressionMethod::HuffmanCodec),
        _ => {
            let mut msg = String::from_str("Invalid compression method: ");
            push_decimal(&mut msg, v as u64);
            Err(LepccError::WrongParam(msg))
        },
    }
}

// --- the colors -------------------------------------------------------------
/// The distinct colors in order of first appearance.
pub open spec fn distinct_colors(s: Seq<RGB>) -> Seq<RGB>
    decreases s.len(),
{
    if s.len() == 0 {
        Seq::empty()
    } else {
        let p = distinct_colors(s.drop_last());
        if p.contains(s.last()) {
            p
        } else {
            p.push(s.last())
        }
    }
}

/// Position of the first entry from `i` on that equals `c` (0 when there is none).
pub open spec fn index_from(p: Seq<RGB>, c: RGB, i: int) -> int
    decreases p.len() - i,
{
    if i < 0 || i >= p.len() {
        0
    } else if p[i] == c {
        i
    } else {
        index_from(p, c, i + 1)
    }
}

/// Position of the first entry equal to `c` (0 when there is none).
pub open spec fn index_in(p: Seq<RGB>, c: RGB) -> int {
    index_from(p, c, 0)
}

/// Distance between two colors: sum of the absolute channel differences.
pub open spec fn color_distance(a: RGB, b: RGB) -> int {
    let dr = a.r - b.r;
    let dg = a.g - b.g;
    let db = a.b - b.b;
    (if dr < 0 { -dr } else { dr }) + (if dg < 0 { -dg } else { dg }) + (if db < 0 { -db } else { db })
}

/// The first of the closest entries among the first `k` entries of `p`.
pub open spec fn nearest_in(p: Seq<RGB>, c: RGB, k: int) -> int
    decreases k,
{
    if k <= 1 {
        0
    } else {
        let b = nearest_in(p, c, k - 1);
        if color_distance(p[k - 1], c) < color_distance(p[b], c) {
            k - 1
        } else {
            b
        }
    }
}

/// The first `k` entries of `s`, or all of them when there are fewer.
pub open spec fn first_at_most<A>(s: Seq<A>, k: nat) -> Seq<A> {
    if s.len() <= k {
        s
    } else {
        s.take(k as int)
    }
}

/// The colormap of the lossy method: black, then the first 255 distinct colors.
pub open spec fn lossy_palette(colors: Seq<RGB>) -> Seq<RGB> {
    seq![RGB { r: 0, g: 0, b: 0 }] + first_at_most(distinct_colors(colors), 255)
}

/// The colormap index of every color: exact for a lossless colormap, the
/// closest entry otherwise.
pub open spec fn color_indexes(colors: Seq<RGB>, map: Seq<RGB>, lossless: bool) -> Seq<u8> {
    Seq::new(
        colors.len(),
        |i: int|
            if lossless {
                index_in(map, colors[i]) as u8
            } else {
                nearest_in(map, colors[i], map.len() as int) as u8
            },
    )
}

/// Every index is the same.
pub open spec fn all_same(idx: Seq<u8>) -> bool {
    forall|i: int| 0 <= i < idx.len() ==> #[trigger] idx[i] == idx[0]
}

/// The index compression chosen for the indexes.
pub open spec fn index_compression(idx: Seq<u8>) -> ColorIndexCompressionMethod {
    if all_same(idx) {
        ColorIndexCompressionMethod::AllConst
    } else {
        ColorIndexCompressionMethod::NoCompression
    }
}

/// Colors are stored raw when a colormap would not pay off.
pub open spec fn stores_raw(colors: Seq<RGB>) -> bool {
    let d = distinct_colors(colors).len();
    2 * colors.len() <= 3 * (if d < 256 { d } else { 256 })
}

/// The lookup method chosen for the colors.
pub open spec fn rgb_lookup(colors: Seq<RGB>) -> ColorLookupMethod {
    if stores_raw(colors) {
        ColorLookupMethod::NoColormap
    } else if distinct_colors(colors).len() <= 256 {
        ColorLookupMethod::Lossless
    } else {
        ColorLookupMethod::Array3D
    }
}

/// The colormap chosen for the colors.
pub open spec fn rgb_palette(colors: Seq<RGB>) -> Seq<RGB> {
    if distinct_colors(colors).len() <= 256 {
        distinct_colors(colors)
    } else {
        lossy_palette(colors)
    }
}

/// The colormap indexes chosen for the colors.
pub open spec fn rgb_indexes(colors: Seq<RGB>) -> Seq<u8> {
    color_indexes(colors, rgb_palette(colors), distinct_colors(colors).len() <= 256)
}

/// The three bytes of every color.
pub open spec fn color_bytes(c: Seq<RGB>) -> Seq<u8> {
    Seq::new(
        3 * c.len(),
        |j: int|
            if j % 3 == 0 {
                c[j / 3].r
            } else if j % 3 == 1 {
                c[j / 3].g
            } else {
                c[j / 3].b
            },
    )
}

/// The blob written from an encoder's state.
pub open spec fn rgb_blob(
    lookup: ColorLookupMethod,
    compression: ColorIndexCompressionMethod,
    map: Seq<RGB>,
    raw: Seq<RGB>,
    idx: Seq<u8>,
) -> Seq<u8> {
    let num_points = if lookup == ColorLookupMethod::NoColormap {
        raw.len()
    } else {
        idx.len()
    };
    let num_colors = if lookup == ColorLookupMethod::NoColormap {
        0
    } else {
        map.len()
    };
    let body = rgb_body(lookup, compression, map, raw, idx);
    seal(
        cluster_rgb_key(),
        le_bytes(num_points as u32 as nat, 4) + le_bytes(num_colors as u16 as nat, 2) + seq![
            lookup_code(lookup),
            compression_code(compression),
        ] + body,
    )
}

/// The blob written for `colors` by a fresh encoder.
pub open spec fn rgb_encoding(colors: Seq<RGB>) -> Seq<u8> {
    if rgb_lookup(colors) == ColorLookupMethod::NoColormap {
        rgb_blob(
            ColorLookupMethod::NoColormap,
            ColorIndexCompressionMethod::NoCompression,
            Seq::empty(),
            colors,
            Seq::empty(),
        )
    } else {
        rgb_blob(
            rgb_lookup(colors),
            index_compression(rgb_indexes(colors)),
            rgb_palette(colors),
            Seq::empty(),
            rgb_indexes(colors),
        )
    }
}

/// Bytes the encoder reports for `colors`.
pub open spec fn rgb_num_bytes(colors: Seq<RGB>) -> int {
    if stores_raw(colors) {
        32 + 3 * colors.len() as int
    } else {
        32 + 3 * rgb_palette(colors).len() + if all_same(rgb_indexes(colors)) {
            0
        } else {
            colors.len() as int
        }
    }
}

// --- decoding ---------------------------------------------------------------
/// Number of points recorded in the header.
pub open spec fn header_points(d: Seq<u8>) -> nat {
    le_value(d, 24, 4)
}

/// Number of colormap entries recorded in the header.
pub open spec fn header_colors(d: Seq<u8>) -> nat {
    le_value(d, 28, 2)
}

/// The color of the three bytes at `pos`.
pub open spec fn color_at(d: Seq<u8>, pos: int) -> RGB {
    RGB { r: d[pos], g: d[pos + 1], b: d[pos + 2] }
}

/// The first `count` colors stored from byte 32 on, as far as the data goes.
pub open spec fn stored_colors(d: Seq<u8>, count: nat) -> Seq<RGB> {
    let avail = ((d.len() - 32) / 3) as nat;
    Seq::new(if count < avail { count } else { avail }, |i: int| color_at(d, 32 + 3 * i))
}

/// The colors of the indexes that are within the colormap, as far as the data goes.
pub open spec fn indexed_colors(d: Seq<u8>, map: Seq<RGB>, start: int, count: nat) -> Seq<RGB>
    decreases count,
{
    if count == 0 {
        Seq::empty()
    } else {
        let prev = indexed_colors(d, map, start, (count - 1) as nat);
        let idx = start + count - 1;
        if idx >= d.len() {
            prev
        } else if (d[idx] as int) < map.len() {
            prev.push(map[d[idx] as int])
        } else {
            prev
        }
    }
}

/// The colors decoded from a color blob, or `None` when decoding fails.
pub open spec fn rgb_decoding(d: Seq<u8>) -> Option<Seq<RGB>> {
    match checked_blob_size(d, cluster_rgb_key()) {
        None => None,
        Some(n) => if d.len() < 32 || d[30] > 2 {
            None
        } else if header_colors(d) == 0 {
            Some(stored_colors(d, header_points(d)))
        } else if d[31] > 2 {
            None
        } else {
            let map = stored_colors(d, header_colors(d));
            if d[31] == 0 {
                Some(indexed_colors(d, map, 32 + 3 * header_colors(d) as int, header_points(d)))
            } else if d[31] == 1 && map.len() > 0 {
                Some(Seq::new(header_points(d), |i: int| map[0]))
            } else {
                Some(Seq::empty())
            }
        },
    }
}

/// The error reported when decoding a color blob fails.
pub open spec fn rgb_decoding_error(d: Seq<u8>, e: LepccError) -> bool {
    match checked_blob_size(d, cluster_rgb_key()) {
        None => checked_blob_error(d, cluster_rgb_key(), e),
        Some(n) => if d.len() < 32 {
            is_too_small(e, 32, d.len() as int)
        } else if d[30] > 2 {
            is_wrong_param(e, "Invalid color lookup method: "@ + decimal(d[30] as nat))
        } else {
            is_wrong_param(e, "Invalid compression method: "@ + decimal(d[31] as nat))
        },
    }
}

// --- the encoder ------------------------------------------------------------
/// Largest number of colormap entries.
pub const MAX_NUM_COLORS: usize = 256;

/// Position of a color in the mask of the colors seen so far.
pub open spec fn mask_key(c: RGB) -> int {
    c.b * 65536 + c.r * 256 + c.g
}

/// The lossless colormap code of a color.
pub open spec fn color_code(c: RGB) -> int {
    c.r * 65536 + c.g * 256 + c.b
}

pub struct ClusterRgbEncoder {
    color_lookup_method: ColorLookupMethod,
    color_index_compression_method: ColorIndexCompressionMethod,
    num_points: usize,
    color_map: Vec<RGB>,
    rgb_vec: Vec<RGB>,
    color_index_vec: Vec<Byte>,
}

impl Default for ClusterRgbEncoder {
    fn default() -> (e: Self)
        ensures
            e.is_fresh(),
    {
        Self::new()
    }
}

impl ClusterRgbEncoder {
    /// Lookup method chosen by the last size computation.
    pub closed spec fn lookup(self) -> ColorLookupMethod {
        self.color_lookup_method
    }

    /// Index compression chosen by the last size computation.
    pub closed spec fn compression(self) -> ColorIndexCompressionMethod {
        self.color_index_compression_method
    }

    /// Colormap chosen by the last size computation.
    pub closed spec fn colormap(self) -> Seq<RGB> {
        self.color_map@
    }

    /// Colors kept for raw storage.
    pub closed spec fn raw_colors(self) -> Seq<RGB> {
        self.rgb_vec@
    }

    /// Colormap index of every point.
    pub closed spec fn indexes(self) -> Seq<u8> {
        self.color_index_vec@
    }

    /// The state of a new encoder.
    pub open spec fn is_fresh(self) -> bool {
        &&& self.lookup() == ColorLookupMethod::NoColormap
        &&& self.compression() == ColorIndexCompressionMethod::NoCompression
        &&& self.colormap() == Seq::<RGB>::empty()
        &&& self.raw_colors() == Seq::<RGB>::empty()
        &&& self.indexes() == Seq::<u8>::empty()
    }

    pub fn new() -> (e: Self)
        ensures
            e.is_fresh(),
    {
        ClusterRgbEncoder {
            color_lookup_method: ColorLookupMethod::NoColormap,
            color_index_compression_method: ColorIndexCompressionMethod::NoCompression,
            num_points: 0,
            color_map: Vec::new(),
            rgb_vec: Vec::new(),
            color_index_vec: Vec::new(),
        }
    }

    /// Compute the number of bytes needed to encode RGB colors
    pub fn compute_num_bytes_needed(&mut self, colors: &[RGB]) -> (r: Result<i64>)
        requires
            colors@.len() * 3 + 1000 <= i64::MAX,
        ensures
            colors@.len() == 0 ==> (r matches Err(e) && is_wrong_param(e, "No colors provided"@)
                && *final(self) == *old(self)),
            colors@.len() > 0 ==> (r matches Ok(n) && n == rgb_num_bytes(colors@)
                && final(self).lookup() == rgb_lookup(colors@) && (if stores_raw(colors@) {
                &&& final(self).raw_colors() == colors@
                &&& final(self).compression() == old(self).compression()
                &&& final(self).colormap() == old(self).colormap()
                &&& final(self).indexes() == old(self).indexes()
            } else {
                &&& final(self).colormap() == rgb_palette(colors@)
                &&& final(self).indexes() == rgb_indexes(colors@)
                &&& final(self).compression() == index_compression(rgb_indexes(colors@))
                &&& final(self).raw_colors() == old(self).raw_colors()
            })),
    {
        if colors.len() == 0 {
            return Err(wrong_param("No colors provided"));
        }
        let n = colors.len();
        self.num_points = n;
        // Count the distinct colors, and keep the codes of the first ones.
        let mut true_color_mask = BitMask::with_size(256 * 256, 256);
        true_color_mask.set_all_invalid();
        let mut num_orig_colors: usize = 0;
        let mut lossless_colors: Vec<i32> = Vec::new();
        let mut i: usize = 0;
        while i < n
            invariant
                n == colors@.len(),
                i <= n,
                true_color_mask.wf(),
                true_color_mask.num_bits() == 16777216,
                forall|c: RGB| #![trigger mask_key(c)]
                    true_color_mask.valid(mask_key(c)) == colors@.take(i as int).contains(c),
                num_orig_colors == distinct_colors(colors@.take(i as int)).len(),
                num_orig_colors <= i,
                lossless_colors@ == first_at_most(distinct_colors(colors@.take(i as int)), 256).map_values(
                    |c: RGB| color_code(c) as i32,
                ),
            decreases n - i,
        {
            let rgb = colors[i];
            let k: usize = (rgb.b as usize) * 65536 + (rgb.r as usize) * 256 + rgb.g as usize;
            proof {
                lemma_distinct_step(colors@, i as int);
                assert(colors@.take(i as int + 1) =~= colors@.take(i as int).push(rgb));
                assert(k == mask_key(rgb));
                assert(true_color_mask.valid(mask_key(rgb)) == colors@.take(i as int).contains(rgb));
            }
            if !true_color_mask.is_valid(k) {
                true_color_mask.set_valid(k);
                num_orig_colors = num_orig_colors + 1;
                if num_orig_colors <= MAX_NUM_COLORS {
                    let index = compute_3d_array_index(rgb.r, rgb.g, rgb.b);
                    lossless_colors.push(index);
                }
                proof {
                    assert forall|c: RGB| #![trigger mask_key(c)]
                        true_color_mask.valid(mask_key(c)) == colors@.take(i + 1).contains(c) by {
                        lemma_mask_key_injective(c, rgb);
                        lemma_contains_push(colors@.take(i as int), rgb, c);
                    }
                }
            } else {
                proof {
                    assert forall|c: RGB| #![trigger mask_key(c)]
                        true_color_mask.valid(mask_key(c)) == colors@.take(i + 1).contains(c) by {
                        lemma_contains_push(colors@.take(i as int), rgb, c);
                    }
                }
            }
            i = i + 1;
            proof {
                let d = distinct_colors(colors@.take(i as int));
                assert(lossless_colors@ =~= first_at_most(d, 256).map_values(|c: RGB| color_code(c) as i32));
            }
        }
        proof {
            assert(colors@.take(n as int) =~= colors@);
        }
        let header_size: i64 = HEADER_SIZE as i64;
        let capped = if num_orig_colors < MAX_NUM_COLORS {
            num_orig_colors
        } else {
            MAX_NUM_COLORS
        };
        if 2 * (n as u64) <= 3 * (capped as u64) {
            // Store colors raw, no colormap
            self.color_lookup_method = ColorLookupMethod::NoColormap;
            self.rgb_vec = vstd::slice::slice_to_vec(colors);
            return Ok(header_size + (n * 3) as i64);
        } else if num_orig_colors <= MAX_NUM_COLORS {
            // Lossless colormap
            self.color_lookup_method = ColorLookupMethod::Lossless;
            self.generate_colormap_lossless(&lossless_colors);
            proof {
                let d = distinct_colors(colors@);
                assert forall|j: int| 0 <= j < d.len() implies self.color_map@[j] == d[j] by {
                    lemma_color_code_injective(self.color_map@[j], d[j]);
                }
                assert(self.color_map@ =~= d);
            }
            self.turn_colors_to_indexes(colors);
            let index_bytes = self.compute_num_bytes_needed_color_indexes();
            Ok(header_size + (num_orig_colors * 3) as i64 + index_bytes)
        } else {
            // Lossy colormap: black, then the first distinct colors
            self.color_lookup_method = ColorLookupMethod::Array3D;
            let color_map = lossy_colormap(colors);
            self.color_map = color_map;
            self.turn_colors_to_indexes(colors);
            let index_bytes = self.compute_num_bytes_needed_color_indexes();
            Ok(header_size + (self.color_map.len() * 3) as i64 + index_bytes)
        }
    }

    /// Turns the lossless codes back into the colormap.
    fn generate_colormap_lossless(&mut self, lossless_colors: &Vec<i32>)
        requires
            forall|j: int| 0 <= j < lossless_colors@.len() ==> 0 <= #[trigger] lossless_colors@[j] < 16777216,
        ensures
            final(self).lookup() == old(self).lookup(),
            final(self).compression() == old(self).compression(),
            final(self).raw_colors() == old(self).raw_colors(),
            final(self).indexes() == old(self).indexes(),
            final(self).colormap().len() == lossless_colors@.len(),
            forall|j: int| 0 <= j < lossless_colors@.len() ==> color_code(
                #[trigger] final(self).colormap()[j],
            ) == lossless_colors@[j],
    {
        let mut map: Vec<RGB> = Vec::new();
        let mut i: usize = 0;
        while i < lossless_colors.len()
            invariant
                i <= lossless_colors@.len(),
                forall|j: int| 0 <= j < lossless_colors@.len() ==> 0 <= #[trigger] lossless_colors@[j] < 16777216,
                map@.len() == i,
                forall|j: int| 0 <= j < i ==> color_code(#[trigger] map@[j]) == lossless_colors@[j],
            decreases lossless_colors@.len() - i,
        {
            let n = lossless_colors[i];
            let r = ((n >> 16u32) & 255) as u8;
            let g = ((n >> 8u32) & 255) as u8;
            let b = (n & 255) as u8;
            proof {
                assert(0 <= n < 16777216);
                assert(((n >> 16u32) & 255) * 65536 + ((n >> 8u32) & 255) * 256 + (n & 255) == n)
                    by (bit_vector)
                    requires
                        0 <= n < 16777216,
                ;
                assert(0 <= (n >> 16u32) & 255 < 256 && 0 <= (n >> 8u32) & 255 < 256 && 0 <= n & 255 < 256)
                    by (bit_vector)
                    requires
                        0 <= n < 16777216,
                ;
            }
            map.push(RGB { r, g, b });
            i = i + 1;
        }
        self.color_map = map;
    }

    /// Sets the colormap index of every color.
    fn turn_colors_to_indexes(&mut self, colors: &[RGB])
        requires
            old(self).lookup() != ColorLookupMethod::NoColormap,
            old(self).colormap().len() <= MAX_NUM_COLORS,
        ensures
            final(self).lookup() == old(self).lookup(),
            final(self).compression() == old(self).compression(),
            final(self).colormap() == old(self).colormap(),
            final(self).raw_colors() == old(self).raw_colors(),
            final(self).indexes() == color_indexes(
                colors@,
                old(self).colormap(),
                old(self).lookup() == ColorLookupMethod::Lossless,
            ),
    {
        let mut idx: Vec<u8> = Vec::new();
        let ghost lossless = self.color_lookup_method == ColorLookupMethod::Lossless;
        let mut i: usize = 0;
        while i < colors.len()
            invariant
                i <= colors@.len(),
                self.colormap().len() <= MAX_NUM_COLORS,
                lossless == (self.color_lookup_method == ColorLookupMethod::Lossless),
                idx@ =~= color_indexes(colors@.take(i as int), self.colormap(), lossless),
            decreases colors@.len() - i,
        {
            let index = self.find_color_index(&colors[i]);
            idx.push(index as u8);
            i = i + 1;
            proof {
                assert(idx@ =~= color_indexes(colors@.take(i as int), self.colormap(), lossless));
            }
        }
        proof {
            assert(colors@.take(colors@.len() as int) =~= colors@);
        }
        self.color_index_vec = idx;
    }

    /// The colormap index of a color: exact for a lossless colormap, the
    /// closest entry otherwise.
    fn find_color_index(&self, rgb: &RGB) -> (r: i32)
        requires
            self.colormap().len() <= MAX_NUM_COLORS,
        ensures
            0 <= r < 256,
            r == if self.lookup() == ColorLookupMethod::Lossless {
                index_in(self.colormap(), *rgb)
            } else {
                nearest_in(self.colormap(), *rgb, self.colormap().len() as int)
            },
    {
        let len = self.color_map.len();
        if len == 0 {
            proof {
                assert(index_from(self.colormap(), *rgb, 0) == 0);
            }
            return 0;
        }
        if self.color_lookup_method == ColorLookupMethod::Lossless {
            let mut i: usize = 0;
            while i < len
                invariant
                    len == self.colormap().len(),
                    len <= MAX_NUM_COLORS,
                    i <= len,
                    self.lookup() == ColorLookupMethod::Lossless,
                    index_in(self.colormap(), *rgb) == index_from(self.colormap(), *rgb, i as int),
                decreases len - i,
            {
                let c = self.color_map[i];
                if c.r == rgb.r && c.g == rgb.g && c.b == rgb.b {
                    proof {
                        assert(self.colormap()[i as int] == *rgb);
                        assert(index_from(self.colormap(), *rgb, i as int) == i);
                        assert(index_in(self.colormap(), *rgb) == i);
                        assert(self.lookup() == ColorLookupMethod::Lossless);
                    }
                    return i as i32;
                }
                i = i + 1;
            }
            0
        } else {
            let mut best_index: usize = 0;
            let mut best_dist: i32 = i32::MAX;
            let mut i: usize = 0;
            while i < len
                invariant
                    len == self.colormap().len(),
                    len <= MAX_NUM_COLORS,
                    i <= len,
                    i == 0 ==> best_index == 0 && best_dist == i32::MAX,
                    i > 0 ==> best_index == nearest_in(self.colormap(), *rgb, i as int)
                        && best_dist == color_distance(self.colormap()[best_index as int], *rgb),
                    best_index < len,
                decreases len - i,
            {
                let c = self.color_map[i];
                let dr = if c.r >= rgb.r { (c.r - rgb.r) as i32 } else { (rgb.r - c.r) as i32 };
                let dg = if c.g >= rgb.g { (c.g - rgb.g) as i32 } else { (rgb.g - c.g) as i32 };
                let db = if c.b >= rgb.b { (c.b - rgb.b) as i32 } else { (rgb.b - c.b) as i32 };
                let dist = dr + dg + db;
                assert(dist == color_distance(self.colormap()[i as int], *rgb));
                if dist < best_dist {
                    best_dist = dist;
                    best_index = i;
                }
                i = i + 1;
            }
            best_index as i32
        }
    }

    /// Chooses how the colormap indexes are stored and returns their size,
    /// or -1 when there are none.
    fn compute_num_bytes_needed_color_indexes(&mut self) -> (n: i64)
        requires
            old(self).indexes().len() <= i64::MAX,
        ensures
            final(self).lookup() == old(self).lookup(),
            final(self).colormap() == old(self).colormap(),
            final(self).indexes() == old(self).indexes(),
            final(self).raw_colors() == old(self).raw_colors(),
            old(self).indexes().len() == 0 ==> n == -1 && final(self).compression() == old(
                self,
            ).compression(),
            old(self).indexes().len() > 0 ==> final(self).compression() == index_compression(
                old(self).indexes(),
            ) && n == if all_same(old(self).indexes()) {
                0
            } else {
                old(self).indexes().len() as int
            },
    {
        if self.color_index_vec.len() == 0 {
            return -1;
        }
        let len = self.color_index_vec.len();
        // Histogram of the indexes
        let mut histo: Vec<usize> = vec![0usize; 256];
        let mut num_non_zero_bins: usize = 0;
        let mut i: usize = 0;
        while i < len
            invariant
                len == self.indexes().len(),
                i <= len,
                histo@.len() == 256,
                forall|v: int| 0 <= v < 256 ==> #[trigger] histo@[v] <= i,
                forall|v: u8| (#[trigger] histo@[v as int] > 0) == self.indexes().take(i as int).contains(v),
                num_non_zero_bins <= i,
                (num_non_zero_bins == 0) == (i == 0),
                (num_non_zero_bins <= 1) == all_same(self.indexes().take(i as int)),
            decreases len - i,
        {
            let v = self.color_index_vec[i];
            let ghost pre = self.indexes().take(i as int);
            proof {
                assert(self.indexes().take(i + 1) =~= pre.push(v));
            }
            if histo[v as usize] == 0 {
                num_non_zero_bins = num_non_zero_bins + 1;
                proof {
                    assert(!pre.contains(v));
                    if i > 0 {
                        assert(pre[0] != v);
                        assert(pre.push(v)[i as int] == v);
                    }
                }
            } else {
                proof {
                    assert(pre.contains(v));
                    let k = choose|k: int| 0 <= k < pre.len() && pre[k] == v;
                    if all_same(pre) {
                        assert(pre[k] == pre[0]);
                        assert forall|j: int| 0 <= j < pre.push(v).len() implies #[trigger] pre.push(v)[j] == pre.push(v)[0] by {
                            if j < pre.len() {
                                assert(pre[j] == pre[0]);
                            }
                        }
                    } else {
                        let j = choose|j: int| 0 <= j < pre.len() && #[trigger] pre[j] != pre[0];
                        assert(pre.push(v)[j] != pre.push(v)[0]);
                    }
                }
            }
            let h = histo[v as usize];
            histo.set(v as usize, h + 1);
            i = i + 1;
            proof {
                assert forall|u: u8| (#[trigger] histo@[u as int] > 0) == self.indexes().take(i as int).contains(u) by {
                    lemma_contains_push_u8(pre, v, u);
                }
            }
        }
        proof {
            assert(self.indexes().take(len as int) =~= self.indexes());
        }
        if num_non_zero_bins <= 1 {
            self.color_index_compression_method = ColorIndexCompressionMethod::AllConst;
            0
        } else {
            self.color_index_compression_method = ColorIndexCompressionMethod::NoCompression;
            len as i64
        }
    }

    /// Encode RGB colors
    pub fn encode(&self) -> (r: Result<Vec<Byte>>)
        requires
            self.colormap().len() <= 0xFFFF,
            self.raw_colors().len() * 3 + self.colormap().len() * 3 + self.indexes().len() + 1000
                <= i64::MAX,
        ensures
            self.lookup() != ColorLookupMethod::NoColormap && self.compression()
                == ColorIndexCompressionMethod::HuffmanCodec ==> (r matches Err(e) && is_failed(
                e,
                "Huffman codec for RGB not implemented"@,
            )),
            !(self.lookup() != ColorLookupMethod::NoColormap && self.compression()
                == ColorIndexCompressionMethod::HuffmanCodec) ==> (r matches Ok(v) && v@ == rgb_blob(
                self.lookup(),
                self.compression(),
                self.colormap(),
                self.raw_colors(),
                self.indexes(),
            )),
    {
        let lookup = self.color_lookup_method;
        let compression = self.color_index_compression_method;
        if lookup != ColorLookupMethod::NoColormap && compression == ColorIndexCompressionMethod::HuffmanCodec {
            return Err(failed("Huffman codec for RGB not implemented"));
        }
        let num_points = if lookup == ColorLookupMethod::NoColormap {
            self.rgb_vec.len()
        } else {
            self.color_index_vec.len()
        };
        let num_colors = if lookup == ColorLookupMethod::NoColormap {
            0
        } else {
            self.color_map.len()
        };
        let mut rest: Vec<u8> = Vec::new();
        push_u32(&mut rest, num_points as u32);
        push_u16(&mut rest, num_colors as u16);
        rest.push(lookup_byte(lookup));
        rest.push(compression_byte(compression));
        let ghost head = rest@;
        if lookup != ColorLookupMethod::NoColormap {
            push_colors(&mut rest, self.color_map.as_slice());
            if compression == ColorIndexCompressionMethod::NoCompression {
                let ghost before = rest@;
                let mut i: usize = 0;
                while i < self.color_index_vec.len()
                    invariant
                        i <= self.color_index_vec@.len(),
                        rest@ == before + self.color_index_vec@.subrange(0, i as int),
                    decreases self.color_index_vec@.len() - i,
                {
                    rest.push(self.color_index_vec[i]);
                    i = i + 1;
                    proof {
                        assert(rest@ =~= before + self.color_index_vec@.subrange(0, i as int));
                    }
                }
                proof {
                    assert(self.color_index_vec@.subrange(0, self.color_index_vec@.len() as int)
                        =~= self.color_index_vec@);
                }
            }
        } else {
            push_colors(&mut rest, self.rgb_vec.as_slice());
        }
        proof {
            crate::bit_stuffer2::lemma_le_bytes_len(num_points as u32 as nat, 4);
            crate::bit_stuffer2::lemma_le_bytes_len(num_colors as u16 as nat, 2);
            assert(rest@ =~= le_bytes(num_points as u32 as nat, 4) + le_bytes(num_colors as u16 as nat, 2)
                + seq![lookup_code(lookup), compression_code(compression)] + (if lookup
                == ColorLookupMethod::NoColormap {
                color_bytes(self.rgb_vec@)
            } else if compression == ColorIndexCompressionMethod::NoCompression {
                color_bytes(self.color_map@) + self.color_index_vec@
            } else {
                color_bytes(self.color_map@)
            }));
        }
        let key = file_key();
        Ok(seal_blob(&key, rest.as_slice()))
    }
}

/// Appends the three bytes of every color.
fn push_colors(buf: &mut Vec<u8>, colors: &[RGB])
    ensures
        final(buf)@ == old(buf)@ + color_bytes(colors@),
{
    let ghost start = buf@;
    let mut i: usize = 0;
    while i < colors.len()
        invariant
            i <= colors@.len(),
            buf@ == start + color_bytes(colors@.subrange(0, i as int)),
        decreases colors@.len() - i,
    {
        let c = colors[i];
        buf.push(c.r);
        buf.push(c.g);
        buf.push(c.b);
        i = i + 1;
        proof {
            let s = colors@.subrange(0, i as int);
            assert forall|j: int| 0 <= j < 3 * i implies #[trigger] color_bytes(s)[j] == color_bytes(
                colors@,
            )[j] by {}
            assert(buf@ =~= start + color_bytes(colors@.subrange(0, i as int)));
        }
    }
    proof {
        assert(colors@.subrange(0, colors@.len() as int) =~= colors@);
    }
}

pub struct ClusterRgbDecoder;

impl ClusterRgbDecoder {
    /// The blob size recorded in the header of a color blob.
    pub fn get_blob_size(data: &[Byte]) -> (r: Result<u32>)
        ensures
            match r {
                Ok(n) => blob_size_result(data@, cluster_rgb_key()) == Some(n as nat),
                Err(e) => blob_size_result(data@, cluster_rgb_key()) is None && blob_size_error(
                    data@,
                    cluster_rgb_key(),
                    e,
                ),
            },
    {
        let key = file_key();
        get_blob_size(data, &key)
    }

    /// The number of points recorded in the header.
    pub fn get_num_points(data: &[Byte]) -> (r: Result<u32>)
        ensures
            match r {
                Ok(n) => data@.len() >= 32 && n == header_points(data@),
                Err(e) => data@.len() < 32 && is_too_small(e, 32, data@.len() as int),
            },
    {
        if data.len() < HEADER_SIZE {
            return Err(LepccError::BufferTooSmall { needed: HEADER_SIZE, provided: data.len() });
        }
        Ok(read_u32(data, 24))
    }

    /// Decode RGB colors
    pub fn decode(data: &[Byte]) -> (r: Result<Vec<RGB>>)
        ensures
            match r {
                Ok(v) => rgb_decoding(data@) == Some(v@),
                Err(e) => rgb_decoding(data@) is None && rgb_decoding_error(data@, e),
            },
    {
        let key = file_key();
        let _blob_size = check_blob(data, &key)?;
        if data.len() < HEADER_SIZE {
            return Err(LepccError::BufferTooSmall { needed: HEADER_SIZE, provided: data.len() });
        }
        let num_points = read_u32(data, 24) as usize;
        let num_colors = read_u16(data, 28) as usize;
        let _color_lookup_method = lookup_method_from_byte(data[30])?;
        if num_colors == 0 {
            // Colors stored raw per point
            return Ok(read_colors(data, num_points));
        }
        // Read colormap
        let color_map = read_colors(data, num_colors);
        let compression_method = compression_method_from_byte(data[31])?;
        let indexes_start = HEADER_SIZE + num_colors * 3;
        let mut result: Vec<RGB> = Vec::new();
        if compression_method == ColorIndexCompressionMethod::NoCompression {
            let mut i: usize = 0;
            while i < num_points
                invariant
                    i <= num_points,
                    indexes_start == 32 + 3 * header_colors(data@),
                    result@ == indexed_colors(data@, color_map@, indexes_start as int, i as nat),
                decreases num_points - i,
            {
                if indexes_start <= data.len() && i < data.len() - indexes_start {
                    let color_idx = data[indexes_start + i] as usize;
                    if color_idx < color_map.len() {
                        result.push(color_map[color_idx]);
                    }
                }
                i = i + 1;
            }
        } else if compression_method == ColorIndexCompressionMethod::AllConst {
            if color_map.len() > 0 {
                let color = color_map[0];
                let mut i: usize = 0;
                while i < num_points
                    invariant
                        i <= num_points,
                        result@ == Seq::new(i as nat, |j: int| color),
                    decreases num_points - i,
                {
                    result.push(color);
                    i = i + 1;
                    proof {
                        assert(result@ =~= Seq::new(i as nat, |j: int| color));
                    }
                }
            }
        }
        Ok(result)
    }
}

/// The first `count` colors stored from byte 32 on, as far as the data goes.
fn read_colors(data: &[u8], count: usize) -> (c: Vec<RGB>)
    requires
        data@.len() >= 32,
    ensures
        c@ == stored_colors(data@, count as nat),
{
    let avail = (data.len() - HEADER_SIZE) / 3;
    let n = if count < avail {
        count
    } else {
        avail
    };
    let mut result: Vec<RGB> = Vec::new();
    let mut i: usize = 0;
    while i < n
        invariant
            i <= n,
            n <= (data.len() - 32) / 3,
            data@.len() >= 32,
            result@ == Seq::new(i as nat, |j: int| color_at(data@, 32 + 3 * j)),
        decreases n - i,
    {
        let idx = HEADER_SIZE + i * 3;
        result.push(RGB { r: data[idx], g: data[idx + 1], b: data[idx + 2] });
        i = i + 1;
        proof {
            assert(result@ =~= Seq::new(i as nat, |j: int| color_at(data@, 32 + 3 * j)));
        }
    }
    proof {
        assert(result@ =~= stored_colors(data@, count as nat));
    }
    result
}


/// The lossless colormap code of a color.
fn compute_3d_array_index(r: u8, g: u8, b: u8) -> (n: i32)
    ensures
        n == color_code(RGB { r, g, b }),
{
    assert((((r as i32) << 16u32) + ((g as i32) << 8u32) + b as i32) == r * 65536 + g * 256 + b)
        by (bit_vector);
    ((r as i32) << 16u32) + ((g as i32) << 8u32) + b as i32
}

/// The colormap of the lossy method: black, then the first distinct colors
/// until the colormap is full.
fn lossy_colormap(colors: &[RGB]) -> (m: Vec<RGB>)
    ensures
        m@ == lossy_palette(colors@),
        m@.len() <= MAX_NUM_COLORS,
{
    let black = RGB { r: 0, g: 0, b: 0 };
    let mut color_map: Vec<RGB> = Vec::new();
    color_map.push(black);
    let n = colors.len();
    let mut i: usize = 0;
    loop
        invariant_except_break
            n == colors@.len(),
            i <= n,
            black == (RGB { r: 0, g: 0, b: 0 }),
            color_map@ == seq![black] + distinct_colors(colors@.take(i as int)),
            distinct_colors(colors@.take(i as int)).len() <= 255,
        ensures
            color_map@ == lossy_palette(colors@),
        decreases n - i,
    {
        if i >= n {
            proof {
                assert(colors@.take(n as int) =~= colors@);
                let d = distinct_colors(colors@);
                assert(d == distinct_colors(colors@.take(i as int)));
                assert(color_map@ =~= lossy_palette(colors@));
            }
            break;
        }
        let rgb = colors[i];
        proof {
            lemma_distinct_step(colors@, i as int);
            assert(color_map@.subrange(1, color_map@.len() as int) =~= distinct_colors(
                colors@.take(i as int),
            ));
        }
        if !contains_from(&color_map, 1, rgb) {
            if color_map.len() >= MAX_NUM_COLORS {
                proof {
                    let d = distinct_colors(colors@.take(i as int));
                    assert(d.len() == 255);
                    lemma_distinct_full(colors@, i as int);
                    assert(first_at_most(distinct_colors(colors@), 255) == d);
                    assert(color_map@ =~= lossy_palette(colors@));
                }
                break;
            }
            color_map.push(rgb);
        }
        i = i + 1;
        proof {
            assert(color_map@ =~= seq![black] + distinct_colors(colors@.take(i as int)));
        }
    }
    color_map
}

/// Once a prefix holds 255 distinct colors, they are the first 255 distinct colors.
proof fn lemma_distinct_full(s: Seq<RGB>, i: int)
    requires
        0 <= i <= s.len(),
        distinct_colors(s.take(i)).len() == 255,
    ensures
        first_at_most(distinct_colors(s), 255) == distinct_colors(s.take(i)),
{
    lemma_distinct_prefix(s, i, s.len() as int);
    assert(s.take(s.len() as int) =~= s);
}

/// Some entry from `start` on equals `c`.
fn contains_from(v: &Vec<RGB>, start: usize, c: RGB) -> (b: bool)
    requires
        start <= v@.len(),
    ensures
        b == v@.subrange(start as int, v@.len() as int).contains(c),
{
    let mut i = start;
    while i < v.len()
        invariant
            start <= i <= v@.len(),
            forall|j: int| start <= j < i ==> v@[j] != c,
        decreases v@.len() - i,
    {
        let e = v[i];
        if e.r == c.r && e.g == c.g && e.b == c.b {
            proof {
                assert(v@.subrange(start as int, v@.len() as int)[i - start] == c);
            }
            return true;
        }
        i = i + 1;
    }
    proof {
        let s = v@.subrange(start as int, v@.len() as int);
        assert forall|j: int| 0 <= j < s.len() implies s[j] != c by {
            assert(s[j] == v@[start + j]);
        }
    }
    false
}

proof fn lemma_contains_push<A>(s: Seq<A>, x: A, c: A)
    ensures
        s.push(x).contains(c) == (s.contains(c) || c == x),
{
    if s.contains(c) {
        let k = choose|k: int| 0 <= k < s.len() && s[k] == c;
        assert(s.push(x)[k] == c);
    }
    if c == x {
        assert(s.push(x)[s.len() as int] == c);
    }
    if s.push(x).contains(c) {
        let k = choose|k: int| 0 <= k < s.push(x).len() && s.push(x)[k] == c;
        if k < s.len() {
            assert(s[k] == c);
        }
    }
}

proof fn lemma_contains_push_u8(s: Seq<u8>, x: u8, c: u8)
    ensures
        s.push(x).contains(c) == (s.contains(c) || c == x),
{
    lemma_contains_push(s, x, c);
}

proof fn lemma_mask_key_injective(a: RGB, b: RGB)
    ensures
        mask_key(a) == mask_key(b) ==> a == b,
{
}

proof fn lemma_color_code_injective(a: RGB, b: RGB)
    ensures
        color_code(a) == color_code(b) ==> a == b,
{
}

/// The distinct colors contain exactly the colors.
proof fn lemma_distinct_contains(s: Seq<RGB>)
    ensures
        forall|c: RGB| #[trigger] distinct_colors(s).contains(c) == s.contains(c),
        distinct_colors(s).len() <= s.len(),
    decreases s.len(),
{
    if s.len() > 0 {
        let t = s.drop_last();
        lemma_distinct_contains(t);
        assert(s =~= t.push(s.last()));
        assert forall|c: RGB| #[trigger] distinct_colors(s).contains(c) == s.contains(c) by {
            lemma_contains_push(t, s.last(), c);
            lemma_contains_push(distinct_colors(t), s.last(), c);
        }
    }
}

/// What the distinct colors of a prefix become with one more color.
proof fn lemma_distinct_step(s: Seq<RGB>, i: int)
    requires
        0 <= i < s.len(),
    ensures
        distinct_colors(s.take(i + 1)) == if s.take(i).contains(s[i]) {
            distinct_colors(s.take(i))
        } else {
            distinct_colors(s.take(i)).push(s[i])
        },
        distinct_colors(s.take(i)).contains(s[i]) == s.take(i).contains(s[i]),
        distinct_colors(s.take(i)).len() <= i,
{
    assert(s.take(i + 1).drop_last() =~= s.take(i));
    lemma_distinct_contains(s.take(i));
}

/// The distinct colors of a prefix are a prefix of the distinct colors.
proof fn lemma_distinct_prefix(s: Seq<RGB>, i: int, j: int)
    requires
        0 <= i <= j <= s.len(),
    ensures
        distinct_colors(s.take(i)).len() <= distinct_colors(s.take(j)).len(),
        distinct_colors(s.take(j)).take(distinct_colors(s.take(i)).len() as int) == distinct_colors(s.take(i)),
    decreases j - i,
{
    if i == j {
        assert(distinct_colors(s.take(j)).take(distinct_colors(s.take(i)).len() as int) =~= distinct_colors(s.take(i)));
    } else {
        lemma_distinct_prefix(s, i, j - 1);
        lemma_distinct_step(s, j - 1);
        let a = distinct_colors(s.take(i));
        let b = distinct_colors(s.take(j - 1));
        let c = distinct_colors(s.take(j));
        assert(c.take(a.len() as int) =~= b.take(a.len() as int));
    }
}


/// The body written after the header of a color blob.
pub open spec fn rgb_body(
    lookup: ColorLookupMethod,
    compression: ColorIndexCompressionMethod,
    map: Seq<RGB>,
    raw: Seq<RGB>,
    idx: Seq<u8>,
) -> Seq<u8> {
    if lookup == ColorLookupMethod::NoColormap {
        color_bytes(raw)
    } else if compression == ColorIndexCompressionMethod::NoCompression {
        color_bytes(map) + idx
    } else {
        color_bytes(map)
    }
}

/// A color blob is the 32-byte header followed by its body.
proof fn lemma_rgb_blob_len(
    lookup: ColorLookupMethod,
    compression: ColorIndexCompressionMethod,
    map: Seq<RGB>,
    raw: Seq<RGB>,
    idx: Seq<u8>,
)
    ensures
        rgb_blob(lookup, compression, map, raw, idx).len() == 32 + rgb_body(
            lookup,
            compression,
            map,
            raw,
            idx,
        ).len(),
{
    let np: nat = if lookup == ColorLookupMethod::NoColormap {
        raw.len()
    } else {
        idx.len()
    };
    let nc: nat = if lookup == ColorLookupMethod::NoColormap {
        0
    } else {
        map.len()
    };
    let body = rgb_body(lookup, compression, map, raw, idx);
    let rest = le_bytes(np as u32 as nat, 4) + le_bytes(nc as u16 as nat, 2) + seq![
        lookup_code(lookup),
        compression_code(compression),
    ] + body;
    let tail = le_bytes((24 + rest.len()) as nat, 8) + rest;
    crate::bit_stuffer2::lemma_le_bytes_len(np as u32 as nat, 4);
    crate::bit_stuffer2::lemma_le_bytes_len(nc as u16 as nat, 2);
    crate::bit_stuffer2::lemma_le_bytes_len(crate::blob::K_CURR_VERSION as nat, 2);
    crate::bit_stuffer2::lemma_le_bytes_len(crate::common::fletcher32(tail) as nat, 4);
    crate::bit_stuffer2::lemma_le_bytes_len((24 + rest.len()) as nat, 8);
}

/// The header of a color blob reads back the fields it was written with.
#[verifier::rlimit(60)]
proof fn lemma_rgb_frame(
    lookup: ColorLookupMethod,
    compression: ColorIndexCompressionMethod,
    map: Seq<RGB>,
    raw: Seq<RGB>,
    idx: Seq<u8>,
)
    requires
        raw.len() <= 0xFFFF_FFFF,
        idx.len() <= 0xFFFF_FFFF,
        map.len() <= 0xFFFF,
        rgb_body(lookup, compression, map, raw, idx).len() + 32 <= u32::MAX,
    ensures
        ({
            let e = rgb_blob(lookup, compression, map, raw, idx);
            let body = rgb_body(lookup, compression, map, raw, idx);
            &&& checked_blob_size(e, cluster_rgb_key()) == Some(e.len())
            &&& e.len() == 32 + body.len()
            &&& header_points(e) == if lookup == ColorLookupMethod::NoColormap {
                raw.len()
            } else {
                idx.len()
            }
            &&& header_colors(e) == if lookup == ColorLookupMethod::NoColormap {
                0
            } else {
                map.len()
            }
            &&& e[30] == lookup_code(lookup)
            &&& e[31] == compression_code(compression)
            &&& forall|i: int| 0 <= i < body.len() ==> e[32 + i] == #[trigger] body[i]
        }),
{
    let np: nat = if lookup == ColorLookupMethod::NoColormap {
        raw.len()
    } else {
        idx.len()
    };
    let nc: nat = if lookup == ColorLookupMethod::NoColormap {
        0
    } else {
        map.len()
    };
    let body = rgb_body(lookup, compression, map, raw, idx);
    let head = le_bytes(np as u32 as nat, 4) + le_bytes(nc as u16 as nat, 2) + seq![
        lookup_code(lookup),
        compression_code(compression),
    ];
    let rest = head + body;
    crate::bit_stuffer2::lemma_le_bytes_len(np as u32 as nat, 4);
    crate::bit_stuffer2::lemma_le_bytes_len(nc as u16 as nat, 2);
    let e = seal(cluster_rgb_key(), rest);
    assert(e == rgb_blob(lookup, compression, map, raw, idx));
    crate::blob::lemma_seal_checks(cluster_rgb_key(), rest, Seq::empty());
    assert(e + Seq::<u8>::empty() =~= e);
    vstd::arithmetic::power2::lemma2_to64();
    assert(e.subrange(24, 28) =~= le_bytes(np as u32 as nat, 4));
    crate::bit_stuffer2::lemma_le_bytes_value(np as u32 as nat, 4, e, 24);
    assert(e.subrange(28, 30) =~= le_bytes(nc as u16 as nat, 2));
    crate::bit_stuffer2::lemma_le_bytes_value(nc as u16 as nat, 2, e, 28);
    assert(e[30] == rest[6]);
    assert(e[31] == rest[7]);
    assert forall|i: int| 0 <= i < body.len() implies e[32 + i] == #[trigger] body[i] by {
        assert(e[32 + i] == rest[8 + i]);
    }
}

/// The colors stored from byte 32 on read back as the colors written there.
proof fn lemma_stored_colors(e: Seq<u8>, x: Seq<RGB>, count: nat)
    requires
        e.len() >= 32 + 3 * x.len(),
        count == x.len(),
        forall|i: int| 0 <= i < 3 * x.len() ==> e[32 + i] == #[trigger] color_bytes(x)[i],
    ensures
        stored_colors(e, count) == x,
{
    assert(((e.len() - 32) / 3) as nat >= x.len()) by (nonlinear_arith)
        requires
            e.len() >= 32 + 3 * x.len(),
    ;
    assert forall|i: int| 0 <= i < x.len() implies #[trigger] color_at(e, 32 + 3 * i) == x[i] by {
        assert(e[32 + 3 * i] == color_bytes(x)[3 * i]);
        assert(e[32 + (3 * i + 1)] == color_bytes(x)[3 * i + 1]);
        assert(e[32 + (3 * i + 2)] == color_bytes(x)[3 * i + 2]);
        assert((3 * i) % 3 == 0 && (3 * i) / 3 == i);
        assert((3 * i + 1) % 3 == 1 && (3 * i + 1) / 3 == i);
        assert((3 * i + 2) % 3 == 2 && (3 * i + 2) / 3 == i);
    }
    assert(stored_colors(e, count) =~= x);
}

/// The indexes stored from `start` on read back as the colors they stand for.
proof fn lemma_indexed_colors(e: Seq<u8>, map: Seq<RGB>, start: int, x: Seq<RGB>, idx: Seq<u8>, k: nat)
    requires
        0 <= start,
        k <= x.len(),
        idx.len() == x.len(),
        start + x.len() <= e.len(),
        forall|i: int| 0 <= i < x.len() ==> e[start + i] == #[trigger] idx[i],
        forall|i: int| 0 <= i < x.len() ==> (#[trigger] idx[i] as int) < map.len() && map[idx[i] as int] == x[i],
    ensures
        indexed_colors(e, map, start, k) == x.take(k as int),
    decreases k,
{
    if k > 0 {
        lemma_indexed_colors(e, map, start, x, idx, (k - 1) as nat);
        let j = k - 1;
        assert(e[start + j] == idx[j]);
        assert(x.take(k as int) =~= x.take(j).push(x[j]));
    } else {
        assert(x.take(0) =~= Seq::<RGB>::empty());
    }
}

/// The first distinct color is the first color.
proof fn lemma_distinct_first(s: Seq<RGB>)
    requires
        s.len() > 0,
    ensures
        distinct_colors(s).len() > 0,
        distinct_colors(s)[0] == s[0],
    decreases s.len(),
{
    if s.len() > 1 {
        lemma_distinct_first(s.drop_last());
        assert(s.drop_last()[0] == s[0]);
        let p = distinct_colors(s.drop_last());
        assert(p.push(s.last())[0] == p[0]);
    } else {
        assert(s.drop_last() =~= Seq::<RGB>::empty());
        let p = distinct_colors(s.drop_last());
        assert(p.len() == 0);
        assert(!p.contains(s.last()));
        assert(p.push(s.last())[0] == s[0]);
    }
}

/// An entry found from `i` on is the entry equal to `c`.
proof fn lemma_index_found(p: Seq<RGB>, c: RGB, i: int, j: int)
    requires
        0 <= i <= j < p.len(),
        p[j] == c,
    ensures
        i <= index_from(p, c, i) <= j,
        p[index_from(p, c, i)] == c,
    decreases j - i,
{
    if p[i] != c {
        lemma_index_found(p, c, i + 1, j);
    }
}

/// Colors whose colormap holds all of them come back unchanged from the
/// colormap indexes.
proof fn lemma_lossless_indexes(colors: Seq<RGB>)
    requires
        colors.len() > 0,
        distinct_colors(colors).len() <= 256,
    ensures
        ({
            let map = distinct_colors(colors);
            let idx = color_indexes(colors, map, true);
            &&& idx.len() == colors.len()
            &&& forall|i: int| 0 <= i < colors.len() ==> (#[trigger] idx[i] as int) < map.len()
                && map[idx[i] as int] == colors[i]
            &&& idx[0] == 0
            &&& map[0] == colors[0]
        }),
{
    let map = distinct_colors(colors);
    let idx = color_indexes(colors, map, true);
    lemma_distinct_contains(colors);
    lemma_distinct_first(colors);
    assert forall|i: int| 0 <= i < colors.len() implies (#[trigger] idx[i] as int) < map.len()
        && map[idx[i] as int] == colors[i] by {
        assert(colors.contains(colors[i]));
        assert(map.contains(colors[i]));
        let j = choose|j: int| 0 <= j < map.len() && map[j] == colors[i];
        lemma_index_found(map, colors[i], 0, j);
    }
}

/// Colors with at most 256 distinct values decode to themselves.
pub proof fn lemma_rgb_roundtrip(colors: Seq<RGB>)
    requires
        0 < colors.len(),
        distinct_colors(colors).len() <= 256,
        colors.len() <= u32::MAX,
        rgb_encoding(colors).len() <= u32::MAX,
    ensures
        rgb_decoding(rgb_encoding(colors)) == Some(colors),
{
    let n = colors.len();
    let e = rgb_encoding(colors);
    if rgb_lookup(colors) == ColorLookupMethod::NoColormap {
        let none = ColorLookupMethod::NoColormap;
        let nc = ColorIndexCompressionMethod::NoCompression;
        lemma_rgb_blob_len(none, nc, Seq::empty(), colors, Seq::empty());
        lemma_rgb_frame(none, nc, Seq::empty(), colors, Seq::empty());
        let body = rgb_body(none, nc, Seq::empty(), colors, Seq::empty());
        assert(body == color_bytes(colors));
        lemma_stored_colors(e, colors, n);
    } else {
        let map = distinct_colors(colors);
        let idx = color_indexes(colors, map, true);
        let lookup = ColorLookupMethod::Lossless;
        let comp = index_compression(idx);
        lemma_lossless_indexes(colors);
        lemma_distinct_contains(colors);
        assert(rgb_palette(colors) == map);
        assert(rgb_indexes(colors) == idx);
        lemma_rgb_blob_len(lookup, comp, map, Seq::empty(), idx);
        lemma_rgb_frame(lookup, comp, map, Seq::empty(), idx);
        let body = rgb_body(lookup, comp, map, Seq::empty(), idx);
        assert forall|i: int| 0 <= i < 3 * map.len() implies e[32 + i] == #[trigger] color_bytes(map)[i] by {
            assert(body[i] == color_bytes(map)[i]);
        }
        lemma_stored_colors(e, map, map.len());
        if comp == ColorIndexCompressionMethod::NoCompression {
            let start: int = 32 + 3 * map.len() as int;
            assert forall|i: int| 0 <= i < n implies e[start + i] == #[trigger] idx[i] by {
                assert(body[3 * map.len() + i] == idx[i]);
            }
            lemma_indexed_colors(e, map, start, colors, idx, n);
            assert(colors.take(n as int) =~= colors);
        } else {
            assert(all_same(idx));
            assert forall|i: int| 0 <= i < n implies colors[i] == map[0] by {
                assert(idx[i] == idx[0]);
            }
            assert(Seq::new(n, |i: int| map[0]) =~= colors);
        }
    }
}


/// Colors that would take no more room raw than through a colormap (twice
/// their number at most three times the number of their distinct values,
/// counting at most 256 of these) are stored raw: the color blob has no
/// colormap (lookup byte 0, no colormap entry) and decodes to exactly the
/// colors, however many distinct values they have.
pub proof fn lemma_rgb_raw_roundtrip(colors: Seq<RGB>)
    requires
        0 < colors.len(),
        2 * colors.len() <= 3 * (if distinct_colors(colors).len() < 256 {
            distinct_colors(colors).len()
        } else {
            256
        }),
    ensures
        rgb_encoding(colors)[30] == 0u8,
        header_colors(rgb_encoding(colors)) == 0,
        rgb_encoding(colors).len() == 32 + 3 * colors.len(),
        rgb_decoding(rgb_encoding(colors)) == Some(colors),
{
    let n = colors.len();
    assert(n <= 384);
    let e = rgb_encoding(colors);
    let none = ColorLookupMethod::NoColormap;
    let nc = ColorIndexCompressionMethod::NoCompression;
    assert(rgb_lookup(colors) == none);
    lemma_rgb_blob_len(none, nc, Seq::empty(), colors, Seq::empty());
    let body = rgb_body(none, nc, Seq::empty(), colors, Seq::empty());
    assert(body == color_bytes(colors));
    lemma_rgb_frame(none, nc, Seq::empty(), colors, Seq::empty());
    lemma_stored_colors(e, colors, n);
}

/// A color blob is at most 2000 bytes longer than its colors, where these
/// have at most 256 distinct values.
proof fn lemma_rgb_encoding_short(colors: Seq<RGB>)
    requires
        0 < colors.len(),
        distinct_colors(colors).len() <= 256,
    ensures
        rgb_encoding(colors).len() <= colors.len() + 2000,
{
    lemma_rgb_predicted_size(colors);
    lemma_encoding_limits(colors);
}

/// Colors with at most 256 distinct values come back exactly from their color
/// blob.
pub proof fn lemma_rgb_lossless(colors: Seq<RGB>)
    requires
        0 < colors.len() <= u32::MAX - 2000,
        distinct_colors(colors).len() <= 256,
    ensures
        rgb_decoding(rgb_encoding(colors)) == Some(colors),
{
    lemma_rgb_encoding_short(colors);
    lemma_rgb_roundtrip(colors);
}


/// A colormap never has more than 256 entries.
pub proof fn lemma_encoding_limits(colors: Seq<RGB>)
    ensures
        rgb_palette(colors).len() <= 256,
        rgb_indexes(colors).len() == colors.len(),
{
}

/// The color blob of non-empty colors is as long as the encoder computed.
pub proof fn lemma_rgb_predicted_size(colors: Seq<RGB>)
    requires
        0 < colors.len(),
    ensures
        rgb_encoding(colors).len() == rgb_num_bytes(colors),
{
    if rgb_lookup(colors) == ColorLookupMethod::NoColormap {
        lemma_rgb_blob_len(
            ColorLookupMethod::NoColormap,
            ColorIndexCompressionMethod::NoCompression,
            Seq::empty(),
            colors,
            Seq::empty(),
        );
    } else {
        let map = rgb_palette(colors);
        let idx = rgb_indexes(colors);
        lemma_encoding_limits(colors);
        lemma_rgb_blob_len(rgb_lookup(colors), index_compression(idx), map, Seq::empty(), idx);
    }
}

/// The color blob of non-empty colors is a whole blob with a matching checksum,
/// records the number of colors, and is as long as the encoder computed.
pub proof fn lemma_rgb_blob_size(colors: Seq<RGB>)
    requires
        0 < colors.len(),
        colors.len() <= u32::MAX,
        rgb_encoding(colors).len() <= u32::MAX,
    ensures
        checked_blob_size(rgb_encoding(colors), cluster_rgb_key()) == Some(rgb_encoding(colors).len()),
        header_points(rgb_encoding(colors)) == colors.len(),
        rgb_encoding(colors).len() == rgb_num_bytes(colors),
{
    if rgb_lookup(colors) == ColorLookupMethod::NoColormap {
        lemma_rgb_blob_len(
            ColorLookupMethod::NoColormap,
            ColorIndexCompressionMethod::NoCompression,
            Seq::empty(),
            colors,
            Seq::empty(),
        );
        lemma_rgb_frame(
            ColorLookupMethod::NoColormap,
            ColorIndexCompressionMethod::NoCompression,
            Seq::empty(),
            colors,
            Seq::empty(),
        );
    } else {
        let map = rgb_palette(colors);
        let idx = rgb_indexes(colors);
        lemma_encoding_limits(colors);
        lemma_rgb_blob_len(rgb_lookup(colors), index_compression(idx), map, Seq::empty(), idx);
        lemma_rgb_frame(rgb_lookup(colors), index_compression(idx), map, Seq::empty(), idx);
    }
}

/// No color occurs twice among the distinct colors.
proof fn lemma_distinct_unique(s: Seq<RGB>)
    ensures
        forall|i: int, j: int|
            0 <= i < j < distinct_colors(s).len() ==> distinct_colors(s)[i] != distinct_colors(s)[j],
    decreases s.len(),
{
    if s.len() > 0 {
        let t = s.drop_last();
        lemma_distinct_unique(t);
        let p = distinct_colors(t);
        if !p.contains(s.last()) {
            let q = p.push(s.last());
            assert forall|i: int, j: int| 0 <= i < j < q.len() implies q[i] != q[j] by {
                if j == q.len() - 1 {
                    assert(p[i] == q[i]);
                }
            }
        }
    }
}

/// The nearest entry is one of the entries looked at.
proof fn lemma_nearest_range(p: Seq<RGB>, c: RGB, k: int)
    ensures
        0 <= nearest_in(p, c, k),
        k >= 1 ==> nearest_in(p, c, k) < k,
    decreases k,
{
    if k > 1 {
        lemma_nearest_range(p, c, k - 1);
    }
}

/// A color at its first position is its own nearest entry.
proof fn lemma_nearest_exact(p: Seq<RGB>, c: RGB, j: int, k: int)
    requires
        0 <= j < k <= p.len(),
        p[j] == c,
        forall|i: int| 0 <= i < j ==> p[i] != c,
    ensures
        nearest_in(p, c, k) == j,
    decreases k,
{
    if k > j + 1 {
        lemma_nearest_exact(p, c, j, k - 1);
    } else if j > 0 {
        lemma_nearest_range(p, c, j);
        let b = nearest_in(p, c, j);
        assert(p[b] != c);
        assert(color_distance(p[b], c) > 0);
    }
}

/// The colors every color comes back as: itself, except through the lossy
/// colormap, where it is the colormap entry nearest to it.
pub open spec fn rgb_reconstruction(colors: Seq<RGB>) -> Seq<RGB> {
    if rgb_lookup(colors) == ColorLookupMethod::Array3D {
        let map = lossy_palette(colors);
        Seq::new(colors.len(), |i: int| map[nearest_in(map, colors[i], map.len() as int)])
    } else {
        colors
    }
}

/// Through the lossy colormap, two colors get different entries, so the
/// indexes are stored.
proof fn lemma_lossy_indexes_differ(colors: Seq<RGB>)
    requires
        distinct_colors(colors).len() > 256,
    ensures
        lossy_palette(colors).len() == 256,
        index_compression(color_indexes(colors, lossy_palette(colors), false))
            == ColorIndexCompressionMethod::NoCompression,
        forall|i: int|
            0 <= i < colors.len() ==> 0 <= #[trigger] nearest_in(lossy_palette(colors), colors[i], 256) < 256,
{
    let dc = distinct_colors(colors);
    let map = lossy_palette(colors);
    let black = RGB { r: 0, g: 0, b: 0 };
    assert(map.len() == 256);
    assert(map[0] == black);
    assert(map[1] == dc[0]);
    assert(map[2] == dc[1]);
    lemma_distinct_unique(colors);
    assert(dc[0] != dc[1]);
    lemma_distinct_contains(colors);
    assert(dc.contains(dc[0]));
    assert(dc.contains(dc[1]));
    let i0 = choose|i: int| 0 <= i < colors.len() && colors[i] == dc[0];
    let i1 = choose|i: int| 0 <= i < colors.len() && colors[i] == dc[1];
    let x = dc[0];
    let y = dc[1];
    if x == black {
        lemma_nearest_exact(map, x, 0, 256);
        lemma_nearest_exact(map, y, 2, 256);
    } else if y == black {
        lemma_nearest_exact(map, x, 1, 256);
        lemma_nearest_exact(map, y, 0, 256);
    } else {
        lemma_nearest_exact(map, x, 1, 256);
        lemma_nearest_exact(map, y, 2, 256);
    }
    let idx = color_indexes(colors, map, false);
    assert(idx[i0] != idx[i1]);
    assert forall|i: int| 0 <= i < colors.len() implies 0 <= #[trigger] nearest_in(map, colors[i], 256)
        < 256 by {
        lemma_nearest_range(map, colors[i], 256);
    }
}

/// Decoding the color blob of any colors gives back every color: exactly, or,
/// through the lossy colormap of more than 256 distinct colors, as the colormap
/// entry nearest to it.
pub proof fn lemma_rgb_decoded(colors: Seq<RGB>)
    requires
        0 < colors.len(),
        colors.len() <= u32::MAX,
        rgb_encoding(colors).len() <= u32::MAX,
    ensures
        rgb_decoding(rgb_encoding(colors)) == Some(rgb_reconstruction(colors)),
{
    if rgb_lookup(colors) != ColorLookupMethod::Array3D {
        if distinct_colors(colors).len() <= 256 {
            lemma_rgb_roundtrip(colors);
        } else {
            let none = ColorLookupMethod::NoColormap;
            let nc = ColorIndexCompressionMethod::NoCompression;
            lemma_rgb_blob_len(none, nc, Seq::empty(), colors, Seq::empty());
            lemma_rgb_frame(none, nc, Seq::empty(), colors, Seq::empty());
            lemma_stored_colors(rgb_encoding(colors), colors, colors.len());
        }
    } else {
        let n = colors.len();
        let e = rgb_encoding(colors);
        let map = lossy_palette(colors);
        let idx = color_indexes(colors, map, false);
        let x = rgb_reconstruction(colors);
        let lookup = ColorLookupMethod::Array3D;
        let comp = ColorIndexCompressionMethod::NoCompression;
        lemma_lossy_indexes_differ(colors);
        assert(rgb_palette(colors) == map);
        assert(rgb_indexes(colors) == idx);
        lemma_rgb_blob_len(lookup, comp, map, Seq::empty(), idx);
        lemma_rgb_frame(lookup, comp, map, Seq::empty(), idx);
        let body = rgb_body(lookup, comp, map, Seq::empty(), idx);
        assert forall|i: int| 0 <= i < 3 * map.len() implies e[32 + i] == #[trigger] color_bytes(map)[i] by {
            assert(body[i] == color_bytes(map)[i]);
        }
        lemma_stored_colors(e, map, map.len());
        let start: int = 32 + 3 * map.len() as int;
        assert forall|i: int| 0 <= i < n implies e[start + i] == #[trigger] idx[i] by {
            assert(body[3 * map.len() + i] == idx[i]);
        }
        assert forall|i: int| 0 <= i < n implies (#[trigger] idx[i] as int) < map.len() && map[idx[i] as int]
            == x[i] by {
            assert(0 <= nearest_in(map, colors[i], 256) < 256);
        }
        lemma_indexed_colors(e, map, start, x, idx, n);
        assert(x.take(n as int) =~= x);
    }
}

} // verus!