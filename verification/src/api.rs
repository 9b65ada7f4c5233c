//! High-level API for LEPCC compression: compress and decompress colors,
//! intensities and flag bytes, and read the headers of any blob.
use vstd::prelude::*;
use crate::blob::{blob_size_result, blob_size_error, checked_blob_size, has_key, key_matches};
use crate::cluster_rgb::{ClusterRgbEncoder, ClusterRgbDecoder, cluster_rgb_key, rgb_encoding, rgb_decoding,
    rgb_decoding_error, color_bytes, header_points, distinct_colors};
use crate::error::{LepccError, Result, wrong_param, not_lepcc, is_wrong_param, is_not_lepcc, is_too_small};
use crate::flag_bytes::{FlagBytesEncoder, FlagBytesDecoder, flag_key, flag_decoding,
    flag_decoding_error, flag_count, flag_blob, flag_encoding, CompressionMethod};
use crate::huffman::byte_histogram;
use crate::intensity::{IntensityEncoder, IntensityDecoder, intensity_key,
    intensity_decoding, intensity_decoding_error, intensity_encoding, intensity_bpp, upscale_factor_is,
    header_count};
use crate::lepcc_xyz::{LepccDecoder, lepcc_key};
use crate::bit_math::le_value;
use crate::types::{RGB, BlobType};

verus! {

/// Compress RGB colors
pub fn compress_rgb(colors: &[RGB]) -> (r: Result<Vec<u8>>)
    requires
        colors@.len() * 4 + 2000 <= i64::MAX,
    ensures
        colors@.len() == 0 ==> (r matches Err(e) && is_wrong_param(e, "No colors provided"@)),
        colors@.len() > 0 ==> (r matches Ok(v) && v@ == rgb_encoding(colors@)),
        colors@.len() > 0 && 2 * colors@.len() <= 3 * (if distinct_colors(colors@).len() < 256 {
            distinct_colors(colors@).len()
        } else {
            256
        }) ==> (r matches Ok(v) && v@[30] == 0u8 && rgb_decoding(v@) == Some(colors@)),
        0 < colors@.len() <= u32::MAX - 2000 && distinct_colors(colors@).len() <= 256 ==> (r matches Ok(v)
            && rgb_decoding(v@) == Some(colors@)),
{
    if colors.len() == 0 {
        return Err(wrong_param("No colors provided"));
    }
    let mut encoder = ClusterRgbEncoder::new();
    encoder.compute_num_bytes_needed(colors)?;
    proof {
        crate::cluster_rgb::lemma_encoding_limits(colors@);
        if 2 * colors@.len() <= 3 * (if distinct_colors(colors@).len() < 256 {
            distinct_colors(colors@).len()
        } else {
            256
        }) {
            crate::cluster_rgb::lemma_rgb_raw_roundtrip(colors@);
        }
        if colors@.len() <= u32::MAX - 2000 && distinct_colors(colors@).len() <= 256 {
            crate::cluster_rgb::lemma_rgb_lossless(colors@);
        }
    }
    encoder.encode()
}

/// The colors of a flat array `[r0, g0, b0, r1, g1, b1, ...]`.
pub open spec fn colors_of(a: Seq<u8>) -> Seq<RGB> {
    Seq::new(a.len() / 3, |i: int| RGB { r: a[3 * i], g: a[3 * i + 1], b: a[3 * i + 2] })
}

/// Compress RGB colors from a flat u8 array
pub fn compress_rgb_array(rgb_array: &[u8]) -> (r: Result<Vec<u8>>)
    requires
        rgb_array@.len() * 2 + 2000 <= i64::MAX,
    ensures
        rgb_array@.len() == 0 ==> (r matches Err(e) && is_wrong_param(e, "No colors provided"@)),
        rgb_array@.len() > 0 && rgb_array@.len() % 3 != 0 ==> (r matches Err(e) && is_wrong_param(
            e,
            "RGB array length must be a multiple of 3"@,
        )),
        rgb_array@.len() > 0 && rgb_array@.len() % 3 == 0 ==> (r matches Ok(v) && v@ == rgb_encoding(
            colors_of(rgb_array@),
        )),
        rgb_array@.len() > 0 && rgb_array@.len() % 3 == 0 && rgb_array@.len() <= 3 * (u32::MAX - 2000)
            && distinct_colors(triples(rgb_array@)).len() <= 256 ==> (r matches Ok(v) && rgb_decoding(v@)
            matches Some(c) && c.len() == rgb_array@.len() / 3 && (forall|i: int|
            0 <= i < c.len() ==> #[trigger] c[i] == RGB {
                r: rgb_array@[3 * i],
                g: rgb_array@[3 * i + 1],
                b: rgb_array@[3 * i + 2],
            })),
{
    if rgb_array.len() == 0 {
        return Err(wrong_param("No colors provided"));
    }
    if rgb_array.len() % 3 != 0 {
        return Err(wrong_param("RGB array length must be a multiple of 3"));
    }
    let n = rgb_array.len() / 3;
    let mut colors: Vec<RGB> = Vec::new();
    let mut i: usize = 0;
    while i < n
        invariant
            n == rgb_array@.len() / 3,
            rgb_array@.len() <= usize::MAX,
            i <= n,
            colors@ == colors_of(rgb_array@).take(i as int),
        decreases n - i,
    {
        assert(3 * i + 2 < rgb_array@.len()) by (nonlinear_arith)
            requires
                i < n,
                n == rgb_array@.len() / 3,
        ;
        let base: usize = 3 * i;
        colors.push(RGB { r: rgb_array[base], g: rgb_array[base + 1], b: rgb_array[base + 2] });
        i = i + 1;
        proof {
            assert(colors@ =~= colors_of(rgb_array@).take(i as int));
        }
    }
    proof {
        assert(colors@ =~= colors_of(rgb_array@));
        if rgb_array@.len() <= 3 * (u32::MAX - 2000) && distinct_colors(triples(rgb_array@)).len() <= 256 {
            lemma_rgb_array_roundtrip(rgb_array@);
        }
    }
    compress_rgb(colors.as_slice())
}

/// The colors of a flat array, written out channel by channel: color `i` is
/// red `a[3 i]`, green `a[3 i + 1]` and blue `a[3 i + 2]`.
pub open spec fn triples(a: Seq<u8>) -> Seq<RGB> {
    Seq::new(a.len() / 3, |i: int| RGB { r: a[3 * i], g: a[3 * i + 1], b: a[3 * i + 2] })
}

/// A flat array of whole colors with at most 256 distinct values comes back
/// from the color blob written for it: color `i` of the blob has red
/// `a[3 i]`, green `a[3 i + 1]` and blue `a[3 i + 2]`, and the blob's colors,
/// laid out flat again, are the array.
pub proof fn lemma_rgb_array_roundtrip(a: Seq<u8>)
    requires
        0 < a.len() <= 3 * (u32::MAX - 2000),
        a.len() % 3 == 0,
        distinct_colors(triples(a)).len() <= 256,
    ensures
        rgb_decoding(rgb_encoding(colors_of(a))) matches Some(c) && c.len() == a.len() / 3 && (forall|i: int|
            0 <= i < c.len() ==> #[trigger] c[i] == RGB { r: a[3 * i], g: a[3 * i + 1], b: a[3 * i + 2] })
            && (forall|j: int| 0 <= j < a.len() ==> #[trigger] color_bytes(c)[j] == a[j]) && color_bytes(c).len()
            == a.len(),
{
    let c = colors_of(a);
    assert(c =~= triples(a));
    crate::cluster_rgb::lemma_rgb_lossless(c);
    assert forall|j: int| 0 <= j < a.len() implies #[trigger] color_bytes(c)[j] == a[j] by {
        let i = j / 3;
        assert(j == 3 * i + j % 3 && 0 <= j % 3 < 3 && 0 <= i < a.len() / 3) by (nonlinear_arith)
            requires
                0 <= j < a.len(),
                a.len() % 3 == 0,
                i == j / 3,
        ;
    }
}

/// Decompress RGB colors from binary data
pub fn decompress_rgb(data: &[u8]) -> (r: Result<Vec<RGB>>)
    ensures
        match r {
            Ok(v) => rgb_decoding(data@) == Some(v@),
            Err(e) => rgb_decoding(data@) is None && rgb_decoding_error(data@, e),
        },
        forall|c: Seq<RGB>|
            #![trigger rgb_encoding(c)]
            0 < c.len() <= u32::MAX && crate::cluster_rgb::distinct_colors(c).len() <= 256 && data@.len()
                <= u32::MAX && rgb_encoding(c) == data@ ==> (r matches Ok(v) && v@ == c),
{
    let r = ClusterRgbDecoder::decode(data);
    proof {
        assert forall|c: Seq<RGB>|
            0 < c.len() <= u32::MAX && crate::cluster_rgb::distinct_colors(c).len() <= 256 && data@.len()
                <= u32::MAX && rgb_encoding(c) == data@ implies (r matches Ok(v) && v@ == c) by {
            crate::cluster_rgb::lemma_rgb_roundtrip(c);
        }
    }
    r
}

/// Decompress RGB colors to a flat u8 array
pub fn decompress_rgb_array(data: &[u8]) -> (r: Result<Vec<u8>>)
    ensures
        match r {
            Ok(v) => rgb_decoding(data@) is Some && v@ == color_bytes(rgb_decoding(data@).unwrap()) && v@.len() == 3
                * rgb_decoding(data@).unwrap().len() && (forall|i: int|
                0 <= i < rgb_decoding(data@).unwrap().len() ==> v@[3 * i] == (#[trigger] rgb_decoding(
                    data@,
                ).unwrap()[i]).r && v@[3 * i + 1] == rgb_decoding(data@).unwrap()[i].g && v@[3 * i + 2]
                    == rgb_decoding(data@).unwrap()[i].b),
            Err(e) => rgb_decoding(data@) is None && rgb_decoding_error(data@, e),
        },
{
    let colors = decompress_rgb(data)?;
    let mut result: Vec<u8> = Vec::new();
    let mut i: usize = 0;
    while i < colors.len()
        invariant
            i <= colors@.len(),
            result@ == color_bytes(colors@.take(i as int)),
        decreases colors@.len() - i,
    {
        let c = colors[i];
        result.push(c.r);
        result.push(c.g);
        result.push(c.b);
        i = i + 1;
        proof {
            assert(result@ =~= color_bytes(colors@.take(i as int)));
        }
    }
    proof {
        assert(colors@.take(colors@.len() as int) =~= colors@);
    }
    Ok(result)
}

/// Compress intensity values
pub fn compress_intensity(intensities: &[u16]) -> (r: Result<Vec<u8>>)
    requires
        intensities@.len() * 2 + 64 <= i64::MAX,
        intensities@.len() * 2 + 64 <= usize::MAX,
    ensures
        intensities@.len() == 0 ==> (r matches Err(e) && is_wrong_param(e, "No intensities provided"@)),
        intensities@.len() > 0 ==> (r matches Ok(v) && exists|s: int|
            upscale_factor_is(intensities@, s) && v@ == intensity_encoding(
                intensities@,
                s as i32,
                intensity_bpp(intensities@, s) as i32,
            )),
{
    if intensities.len() == 0 {
        return Err(wrong_param("No intensities provided"));
    }
    let mut encoder = IntensityEncoder::new();
    encoder.compute_num_bytes_needed(intensities)?;
    proof {
        crate::intensity::lemma_upscale_factor_bound(intensities@, encoder.scale() as int);
        assert(upscale_factor_is(intensities@, encoder.scale() as int));
    }
    encoder.encode(intensities)
}

/// Decompress intensity values
pub fn decompress_intensity(data: &[u8]) -> (r: Result<Vec<u16>>)
    ensures
        match r {
            Ok(v) => intensity_decoding(data@) == Some(v@),
            Err(e) => intensity_decoding(data@) is None && intensity_decoding_error(data@, e),
        },
        forall|x: Seq<u16>, s: int|
            #![trigger intensity_encoding(x, s as i32, intensity_bpp(x, s) as i32)]
            0 < x.len() <= u32::MAX && data@.len() <= u32::MAX && upscale_factor_is(x, s) && intensity_encoding(
                x,
                s as i32,
                intensity_bpp(x, s) as i32,
            ) == data@ ==> (r matches Ok(v) && v@ == x),
{
    let r = IntensityDecoder::decode(data);
    proof {
        assert forall|x: Seq<u16>, s: int|
            0 < x.len() <= u32::MAX && data@.len() <= u32::MAX && upscale_factor_is(x, s) && intensity_encoding(
                x,
                s as i32,
                intensity_bpp(x, s) as i32,
            ) == data@ implies (r matches Ok(v) && v@ == x) by {
            crate::intensity::lemma_intensity_roundtrip(x, s);
        }
    }
    r
}

/// Compress flag bytes (e.g., classification, return type)
pub fn compress_flag_bytes(flag_bytes: &[u8]) -> (r: Result<Vec<u8>>)
    requires
        flag_bytes@.len() <= i32::MAX,
    ensures
        flag_bytes@.len() == 0 ==> (r matches Err(e) && is_wrong_param(e, "No flag bytes provided"@)),
        flag_bytes@.len() > 0 ==> (r matches Ok(v) && v@ == flag_encoding(flag_bytes@)),
{
    if flag_bytes.len() == 0 {
        return Err(wrong_param("No flag bytes provided"));
    }
    let mut encoder = FlagBytesEncoder::new();
    encoder.compute_num_bytes_needed(flag_bytes)?;
    proof {
        crate::flag_bytes::lemma_min_is_smallest(flag_bytes@);
        if crate::flag_bytes::chooses_huffman(Seq::empty(), flag_bytes@) {
            crate::huffman::lemma_fresh_coder_codes(flag_bytes@);
        }
    }
    encoder.encode(flag_bytes)
}

/// Decompress flag bytes
pub fn decompress_flag_bytes(data: &[u8]) -> (r: Result<Vec<u8>>)
    ensures
        match r {
            Ok(v) => flag_decoding(data@) == Some(v@),
            Err(e) => flag_decoding(data@) is None && flag_decoding_error(data@, e),
        },
        forall|f: Seq<u8>|
            #![trigger flag_encoding(f)]
            0 < f.len() <= i32::MAX && flag_encoding(f) == data@ ==> (r matches Ok(v) && v@ == f),
{
    let r = FlagBytesDecoder::decode(data);
    proof {
        assert forall|f: Seq<u8>| 0 < f.len() <= i32::MAX && flag_encoding(f) == data@ implies (r matches Ok(v)
            && v@ == f) by {
            crate::flag_bytes::lemma_flag_lossless(f);
        }
    }
    r
}

/// The blob type that the file key of `d` names, or `None` for another key.
pub open spec fn blob_type_of(d: Seq<u8>) -> Option<BlobType> {
    if has_key(d, lepcc_key()) {
        Some(BlobType::Xyz)
    } else if has_key(d, cluster_rgb_key()) {
        Some(BlobType::Rgb)
    } else if has_key(d, intensity_key()) {
        Some(BlobType::Intensity)
    } else if has_key(d, flag_key()) {
        Some(BlobType::FlagBytes)
    } else {
        None
    }
}

/// The file key of a blob type.
pub open spec fn type_key(t: BlobType) -> Seq<u8> {
    match t {
        BlobType::Xyz => lepcc_key(),
        BlobType::Rgb => cluster_rgb_key(),
        BlobType::Intensity => intensity_key(),
        BlobType::FlagBytes => flag_key(),
    }
}

/// Get the blob type from compressed data
pub fn get_blob_type(data: &[u8]) -> (r: Result<BlobType>)
    ensures
        match r {
            Ok(t) => blob_type_of(data@) == Some(t),
            Err(e) => blob_type_of(data@) is None && is_not_lepcc(e, "Unknown blob type"@),
        },
{
    if data.len() >= 10 {
        let xyz: [u8; 10] = [0x4Cu8, 0x45, 0x50, 0x43, 0x43, 0x20, 0x20, 0x20, 0x20, 0x20];
        let rgb: [u8; 10] = [0x43u8, 0x6c, 0x75, 0x73, 0x74, 0x65, 0x72, 0x52, 0x47, 0x42];
        let intensity: [u8; 10] = [0x49u8, 0x6e, 0x74, 0x65, 0x6e, 0x73, 0x69, 0x74, 0x79, 0x20];
        let flags: [u8; 10] = [0x46u8, 0x6c, 0x61, 0x67, 0x42, 0x79, 0x74, 0x65, 0x73, 0x20];
        proof {
            assert(xyz@ =~= lepcc_key());
            assert(rgb@ =~= cluster_rgb_key());
            assert(intensity@ =~= intensity_key());
            assert(flags@ =~= flag_key());
        }
        if key_matches(data, &xyz) {
            return Ok(BlobType::Xyz);
        }
        if key_matches(data, &rgb) {
            return Ok(BlobType::Rgb);
        }
        if key_matches(data, &intensity) {
            return Ok(BlobType::Intensity);
        }
        if key_matches(data, &flags) {
            return Ok(BlobType::FlagBytes);
        }
    }
    Err(not_lepcc("Unknown blob type"))
}

/// Get the size of a compressed blob
pub fn get_blob_size(data: &[u8]) -> (r: Result<u32>)
    ensures
        match blob_type_of(data@) {
            None => r matches Err(e) && is_not_lepcc(e, "Unknown blob type"@),
            Some(t) => match r {
                Ok(n) => blob_size_result(data@, type_key(t)) == Some(n as nat),
                Err(e) => blob_size_result(data@, type_key(t)) is None && blob_size_error(data@, type_key(t), e),
            },
        },
{
    let blob_type = get_blob_type(data)?;
    match blob_type {
        BlobType::Xyz => LepccDecoder::get_blob_size(data),
        BlobType::Rgb => ClusterRgbDecoder::get_blob_size(data),
        BlobType::Intensity => IntensityDecoder::get_blob_size(data),
        BlobType::FlagBytes => FlagBytesDecoder::get_blob_size(data),
    }
}

/// The number of points a blob of type `t` records, when the blob is long enough.
pub open spec fn recorded_points(d: Seq<u8>, t: BlobType) -> Option<nat> {
    match t {
        BlobType::Xyz => if d.len() >= 104 { Some(le_value(d, 96, 4)) } else { None },
        BlobType::Rgb => if d.len() >= 32 { Some(header_points(d)) } else { None },
        BlobType::Intensity => if d.len() >= 32 { Some(header_count(d)) } else { None },
        BlobType::FlagBytes => if d.len() >= 32 { Some(flag_count(d)) } else { None },
    }
}

/// Get the number of points/values in compressed data
pub fn get_num_points(data: &[u8]) -> (r: Result<u32>)
    ensures
        match blob_type_of(data@) {
            None => r matches Err(e) && is_not_lepcc(e, "Unknown blob type"@),
            Some(t) => match r {
                Ok(n) => recorded_points(data@, t) == Some(n as nat),
                Err(e) => recorded_points(data@, t) is None && is_too_small(
                    e,
                    if t == BlobType::Xyz { 104 } else { 32 },
                    data@.len() as int,
                ),
            },
        },
{
    let blob_type = get_blob_type(data)?;
    match blob_type {
        BlobType::Xyz => LepccDecoder::get_num_points(data),
        BlobType::Rgb => ClusterRgbDecoder::get_num_points(data),
        BlobType::Intensity => IntensityDecoder::get_num_points(data),
        BlobType::FlagBytes => FlagBytesDecoder::get_num_points(data),
    }
}

/// A whole blob under the file key of a type, followed by anything, is
/// recognised as that type and reports its own length as its size.
proof fn lemma_recognised(d: Seq<u8>, extra: Seq<u8>, t: BlobType)
    requires
        checked_blob_size(d, type_key(t)) == Some(d.len()),
    ensures
        blob_type_of(d + extra) == Some(t),
        blob_size_result(d + extra, type_key(t)) == Some(d.len()),
        forall|i: int| 0 <= i < d.len() ==> #[trigger] (d + extra)[i] == d[i],
{
    let e = d + extra;
    assert(has_key(d, type_key(t)));
    assert(e.subrange(0, 10) =~= d.subrange(0, 10));
    assert(e[0] == e.subrange(0, 10)[0]);
    assert(lepcc_key()[0] != cluster_rgb_key()[0]);
    assert(lepcc_key()[0] != intensity_key()[0]);
    assert(lepcc_key()[0] != flag_key()[0]);
    assert(cluster_rgb_key()[0] != intensity_key()[0]);
    assert(cluster_rgb_key()[0] != flag_key()[0]);
    assert(intensity_key()[0] != flag_key()[0]);
    crate::bit_math::lemma_le_value_same(e, d, 16, 8);
}

/// The blob `compress_rgb` writes for colors, followed by anything, is
/// recognised as a color blob and reports the blob's length and the number of colors.
pub proof fn lemma_rgb_metadata(colors: Seq<RGB>, extra: Seq<u8>)
    requires
        0 < colors.len(),
        colors.len() <= u32::MAX,
        rgb_encoding(colors).len() <= u32::MAX,
    ensures
        blob_type_of(rgb_encoding(colors) + extra) == Some(BlobType::Rgb),
        blob_size_result(rgb_encoding(colors) + extra, cluster_rgb_key()) == Some(rgb_encoding(colors).len()),
        recorded_points(rgb_encoding(colors) + extra, BlobType::Rgb) == Some(colors.len()),
{
    let d = rgb_encoding(colors);
    crate::cluster_rgb::lemma_rgb_blob_size(colors);
    lemma_recognised(d, extra, BlobType::Rgb);
    crate::bit_math::lemma_le_value_same(d + extra, d, 24, 4);
}

/// The blob `compress_intensity` writes for values, followed by anything, is
/// recognised as an intensity blob and reports the blob's length and the number of values.
pub proof fn lemma_intensity_metadata(x: Seq<u16>, r: int, extra: Seq<u8>)
    requires
        0 < x.len(),
        x.len() <= u32::MAX,
        intensity_encoding(x, r as i32, intensity_bpp(x, r) as i32).len() <= u32::MAX,
        upscale_factor_is(x, r),
    ensures
        ({
            let e = intensity_encoding(x, r as i32, intensity_bpp(x, r) as i32);
            &&& blob_type_of(e + extra) == Some(BlobType::Intensity)
            &&& blob_size_result(e + extra, intensity_key()) == Some(e.len())
            &&& recorded_points(e + extra, BlobType::Intensity) == Some(x.len())
        }),
{
    let d = intensity_encoding(x, r as i32, intensity_bpp(x, r) as i32);
    crate::intensity::lemma_intensity_blob_size(x, r);
    lemma_recognised(d, extra, BlobType::Intensity);
    crate::bit_math::lemma_le_value_same(d + extra, d, 24, 4);
}

/// The blob `compress_flag_bytes` writes for bytes, bit stuffed or Huffman
/// coded and followed by anything, is recognised as a flag byte blob and
/// reports the blob's length and the number of bytes.
pub proof fn lemma_flag_metadata(method: CompressionMethod, min: u8, data: Seq<u8>, body: Seq<u8>, extra: Seq<u8>)
    requires
        data.len() <= u32::MAX,
        flag_blob(method, min, data, body).len() <= u32::MAX,
    ensures
        ({
            let d = flag_blob(method, min, data, body);
            &&& blob_type_of(d + extra) == Some(BlobType::FlagBytes)
            &&& blob_size_result(d + extra, flag_key()) == Some(d.len())
            &&& recorded_points(d + extra, BlobType::FlagBytes) == Some(data.len())
        }),
{
    let d = flag_blob(method, min, data, body);
    crate::flag_bytes::lemma_flag_frame(method, min, data, body);
    lemma_recognised(d, extra, BlobType::FlagBytes);
    crate::bit_math::lemma_le_value_same(d + extra, d, 24, 4);
}

/// The point blob the grid encoder writes for cells, followed by anything, is
/// recognised as a point blob and reports the blob's length and the number of cells.
pub proof fn lemma_xyz_metadata(geometry: Seq<u8>, s: Seq<crate::lepcc_xyz::Cell3D>, extra: Seq<u8>)
    requires
        geometry.len() == 72,
        0 < s.len() <= u32::MAX,
        crate::lepcc_xyz::xyz_blob(geometry, s).len() <= u32::MAX,
    ensures
        ({
            let d = crate::lepcc_xyz::xyz_blob(geometry, s);
            &&& blob_type_of(d + extra) == Some(BlobType::Xyz)
            &&& blob_size_result(d + extra, lepcc_key()) == Some(d.len())
            &&& recorded_points(d + extra, BlobType::Xyz) == Some(s.len())
        }),
{
    let d = crate::lepcc_xyz::xyz_blob(geometry, s);
    crate::xyz_roundtrip::lemma_xyz_header(geometry, s);
    lemma_recognised(d, extra, BlobType::Xyz);
    crate::bit_math::lemma_le_value_same(d + extra, d, 96, 4);
}

} // verus!