use lepcc::api::{
    compress_flag_bytes, compress_intensity, compress_rgb, decompress_flag_bytes, decompress_intensity,
    decompress_rgb, get_blob_size, get_blob_type, get_num_points,
};
use lepcc::bit_stuffer2::BitStuffer2;
use lepcc::common::compute_checksum_fletcher32;
use lepcc::error::LepccError;
use lepcc::cluster_rgb::ClusterRgbDecoder;
use lepcc::flag_bytes::{FlagBytesDecoder, FlagBytesEncoder};
use lepcc::huffman::Huffman;
use lepcc::intensity::IntensityEncoder;
use lepcc::lepcc_xyz::{
    compute_num_bytes_cut_in_segments, encode_cut_in_segments, Cell3D, LepccDecoder, LepccGridEncoder,
};
use lepcc::types::{BlobType, ErrCode, RGB};

#[test]
fn rgb_few_distinct_colors_come_back_exactly() {
    let colors = vec![
        RGB::new(10, 20, 30),
        RGB::new(200, 100, 0),
        RGB::new(10, 20, 30),
        RGB::new(0, 0, 0),
        RGB::new(255, 255, 255),
        RGB::new(200, 100, 0),
    ];
    let blob = compress_rgb(&colors).unwrap();
    assert_eq!(decompress_rgb(&blob).unwrap(), colors);
    assert_eq!(get_blob_type(&blob).unwrap(), BlobType::Rgb);
    assert_eq!(get_blob_size(&blob).unwrap() as usize, blob.len());
    assert_eq!(get_num_points(&blob).unwrap(), 6);
}

#[test]
fn rgb_single_color_comes_back_exactly() {
    let colors = vec![RGB::new(7, 8, 9); 40];
    let blob = compress_rgb(&colors).unwrap();
    assert_eq!(decompress_rgb(&blob).unwrap(), colors);
}

#[test]
fn rgb_many_colors_come_back_as_nearest_colormap_entry() {
    let mut colors = Vec::new();
    for i in 0..600u32 {
        colors.push(RGB::new((i % 256) as u8, (i / 256) as u8, 7));
    }
    let blob = compress_rgb(&colors).unwrap();
    let back = decompress_rgb(&blob).unwrap();
    assert_eq!(back.len(), colors.len());
    assert_eq!(&back[..255], &colors[..255]);
    assert_eq!(back[300], RGB::new(44, 0, 7));
    assert_eq!(get_num_points(&blob).unwrap(), 600);
}

#[test]
fn rgb_empty_input_is_refused() {
    assert_eq!(
        compress_rgb(&[]),
        Err(LepccError::WrongParam("No colors provided".to_string()))
    );
}

#[test]
fn intensity_multiples_come_back_exactly() {
    let values = vec![10u16, 20, 30, 40, 1000, 0];
    let blob = compress_intensity(&values).unwrap();
    assert_eq!(decompress_intensity(&blob).unwrap(), values);
    assert_eq!(get_blob_type(&blob).unwrap(), BlobType::Intensity);
    assert_eq!(get_num_points(&blob).unwrap(), 6);
}

#[test]
fn intensity_full_range_comes_back_exactly() {
    let values = vec![0u16, 65535, 1, 40000];
    let blob = compress_intensity(&values).unwrap();
    assert_eq!(decompress_intensity(&blob).unwrap(), values);
}

#[test]
fn intensity_bytes_come_back_exactly() {
    let values = vec![0u16, 255, 17, 128, 3];
    let blob = compress_intensity(&values).unwrap();
    assert_eq!(decompress_intensity(&blob).unwrap(), values);
}

#[test]
fn intensity_empty_input_is_refused() {
    assert_eq!(
        compress_intensity(&[]),
        Err(LepccError::WrongParam("No intensities provided".to_string()))
    );
}

#[test]
fn flag_bytes_come_back_exactly() {
    let flags = vec![3u8, 4, 5, 3, 3, 6];
    let blob = compress_flag_bytes(&flags).unwrap();
    assert_eq!(decompress_flag_bytes(&blob).unwrap(), flags);
    assert_eq!(get_blob_type(&blob).unwrap(), BlobType::FlagBytes);
    assert_eq!(get_blob_size(&blob).unwrap() as usize, blob.len());
    assert_eq!(get_num_points(&blob).unwrap(), 6);
}

#[test]
fn flag_bytes_all_equal_come_back_exactly() {
    let flags = vec![9u8; 25];
    let blob = compress_flag_bytes(&flags).unwrap();
    assert_eq!(decompress_flag_bytes(&blob).unwrap(), flags);
}

#[test]
fn flag_bytes_empty_input_is_refused() {
    assert_eq!(
        compress_flag_bytes(&[]),
        Err(LepccError::WrongParam("No flag bytes provided".to_string()))
    );
}

#[test]
fn changed_byte_fails_the_checksum() {
    let flags = vec![1u8, 2, 3, 4];
    let mut blob = compress_flag_bytes(&flags).unwrap();
    let last = blob.len() - 1;
    blob[last] ^= 0x01;
    assert!(matches!(
        decompress_flag_bytes(&blob),
        Err(LepccError::WrongChecksum { .. })
    ));
}

#[test]
fn truncated_blob_is_too_small() {
    let flags = vec![1u8, 2, 3, 4];
    let blob = compress_flag_bytes(&flags).unwrap();
    let short = &blob[..blob.len() - 1];
    assert_eq!(
        decompress_flag_bytes(short),
        Err(LepccError::BufferTooSmall { needed: blob.len(), provided: blob.len() - 1 })
    );
}

#[test]
fn short_header_is_too_small() {
    assert_eq!(
        FlagBytesDecoder::get_blob_size(&[0u8; 10]),
        Err(LepccError::BufferTooSmall { needed: 24, provided: 10 })
    );
}

#[test]
fn other_key_is_not_a_flag_blob() {
    let blob = compress_rgb(&[RGB::new(1, 2, 3)]).unwrap();
    assert_eq!(
        FlagBytesDecoder::get_blob_size(&blob),
        Err(LepccError::NotLepcc("Invalid file key".to_string()))
    );
}

#[test]
fn unknown_blob_type() {
    assert_eq!(
        get_blob_type(&[0u8; 40]),
        Err(LepccError::NotLepcc("Unknown blob type".to_string()))
    );
}

#[test]
fn fletcher_exact_values() {
    assert_eq!(compute_checksum_fletcher32(&[1, 2, 3, 4]), 0x0A0A_0406);
    assert_eq!(compute_checksum_fletcher32(&[1, 2, 3]), 0x0604_0402);
}

#[test]
fn bit_stuffing_exact_bytes() {
    let bytes = BitStuffer2::encode_simple(&[1, 2, 3]).unwrap();
    assert_eq!(bytes, vec![130u8, 3, 57]);
    assert_eq!(BitStuffer2::decode(&bytes).unwrap(), vec![1u32, 2, 3]);
    assert_eq!(BitStuffer2::compute_num_bytes_needed_simple(3, 3), 3);
}

#[test]
fn bit_stuffing_wide_values_round_trip() {
    let data: Vec<u32> = (0..1000u32).map(|i| i * 2_000_003 % 0x7FFF_FFFF).collect();
    let bytes = BitStuffer2::encode_simple(&data).unwrap();
    assert_eq!(BitStuffer2::decode(&bytes).unwrap(), data);
}

#[test]
fn cut_sections_size_matches_bytes_written() {
    let data: Vec<u32> = (0..300u32).map(|i| 1000 + (i * 37) % 101).collect();
    let mut buffer = Vec::new();
    encode_cut_in_segments(&mut buffer, &data).unwrap();
    assert_eq!(compute_num_bytes_cut_in_segments(&data) as usize, buffer.len());
}

fn grid_cells() -> Vec<Cell3D> {
    let nx = 10;
    vec![
        Cell3D::new(1, 0, 5, 0, nx),
        Cell3D::new(0, 2, 7, 1, nx),
        Cell3D::new(3, 0, 2, 2, nx),
        Cell3D::new(4, 2, 1, 3, nx),
        Cell3D::new(2, 1, 3, 4, nx),
    ]
}

#[test]
fn grid_cells_come_back_in_row_major_order() {
    let mut encoder = LepccGridEncoder::new();
    let n = encoder.compute_num_bytes_needed(grid_cells()).unwrap();
    let blob = encoder.encode(&[0u8; 72]).unwrap();
    assert_eq!(n as usize, blob.len());
    assert_eq!(LepccDecoder::get_num_points(&blob).unwrap(), 5);
    assert_eq!(get_blob_type(&blob).unwrap(), BlobType::Xyz);
    let grid = LepccDecoder::decode_grid(&blob).unwrap();
    assert_eq!(grid, vec![(1, 0, 5), (3, 0, 2), (2, 1, 3), (0, 2, 7), (4, 2, 1)]);
}

#[test]
fn grid_blob_reports_its_size_and_points() {
    let mut encoder = LepccGridEncoder::new();
    encoder.compute_num_bytes_needed(grid_cells()).unwrap();
    let blob = encoder.encode(&[0u8; 72]).unwrap();
    assert_eq!(LepccDecoder::get_blob_size(&blob).unwrap(), blob.len() as u32);
    assert_eq!(LepccDecoder::get_num_points(&blob).unwrap(), 5);
    let mut longer = blob.clone();
    longer.extend_from_slice(&[9u8; 7]);
    assert_eq!(LepccDecoder::get_blob_size(&longer).unwrap(), blob.len() as u32);
    assert_eq!(LepccDecoder::get_num_points(&longer).unwrap(), 5);
    assert_eq!(get_blob_size(&longer).unwrap(), blob.len() as u32);
    assert_eq!(get_num_points(&longer).unwrap(), 5);
}

#[test]
fn grid_without_cells_is_refused() {
    let mut encoder = LepccGridEncoder::new();
    assert_eq!(
        encoder.compute_num_bytes_needed(Vec::new()),
        Err(LepccError::Failed("No points to convert".to_string()))
    );
}

#[test]
fn error_codes_convert_back() {
    let codes = [
        ErrCode::Failed,
        ErrCode::WrongParam,
        ErrCode::WrongVersion,
        ErrCode::WrongChecksum,
        ErrCode::NotLepcc,
        ErrCode::NotClusterRgb,
        ErrCode::NotIntensity,
        ErrCode::NotFlagBytes,
        ErrCode::BufferTooSmall,
        ErrCode::OutArrayTooSmall,
        ErrCode::QuantizeVirtualRasterTooBig,
        ErrCode::QuantizeIndexOutOfRange,
    ];
    for code in codes {
        assert_eq!(ErrCode::try_from(LepccError::from(code)), Ok(code));
    }
    assert_eq!(ErrCode::try_from(LepccError::IoError("disk".to_string())), Err(()));
}

#[test]
fn blob_type_numbers_convert_back() {
    for t in [BlobType::Xyz, BlobType::Rgb, BlobType::Intensity, BlobType::FlagBytes] {
        assert_eq!(BlobType::try_from(u32::from(t)), Ok(t));
    }
    assert!(BlobType::try_from(7u32).is_err());
}

#[test]
fn huffman_coded_flag_bytes_come_back_exactly() {
    let mut flags = vec![0u8; 1000];
    flags.push(255);
    let blob = compress_flag_bytes(&flags).unwrap();
    assert_eq!(blob[28], 1);
    assert_eq!(decompress_flag_bytes(&blob).unwrap(), flags);
}

#[test]
fn intensity_scaled_bytes_come_back_exactly() {
    for values in [vec![2u16, 256], vec![2u16, 510], vec![0u16, 6, 3, 765]] {
        let blob = compress_intensity(&values).unwrap();
        assert_eq!(decompress_intensity(&blob).unwrap(), values);
    }
}

#[test]
fn intensity_size_matches_blob() {
    use_intensity_size(&[2u16, 510]);
    use_intensity_size(&[7u16, 9, 1000]);
}

fn use_intensity_size(values: &[u16]) {
    let mut encoder = IntensityEncoder::new();
    let n = encoder.compute_num_bytes_needed(values).unwrap();
    let blob = encoder.encode(values).unwrap();
    assert_eq!(n as usize, blob.len());
}

#[test]
fn small_blob_size_field_is_an_error() {
    let mut data = b"ClusterRGB".to_vec();
    data.extend_from_slice(&[0u8; 14]);
    assert_eq!(
        ClusterRgbDecoder::decode(&data),
        Err(LepccError::Failed("Invalid blob size".to_string()))
    );
}

#[test]
fn huffman_size_is_table_and_words() {
    let mut huffman = Huffman::new();
    assert_eq!(huffman.compute_num_bytes_needed_to_encode(&[1000, 1000]), Some(275));
}

#[test]
fn huffman_flag_size_matches_blob() {
    let mut flags = vec![0u8; 1000];
    flags.push(255);
    let mut encoder = FlagBytesEncoder::new();
    let n = encoder.compute_num_bytes_needed(&flags).unwrap();
    let blob = encoder.encode(&flags).unwrap();
    assert_eq!(blob[28], 1);
    assert_eq!(n as usize, blob.len());
}

#[test]
fn huffman_coded_bytes_decode_back() {
    let samples: [Vec<u8>; 4] = [
        vec![1u8, 2, 2, 3, 3, 3, 1, 1, 1, 1],
        vec![0u8, 255],
        (0..=255u8).chain(0..=40u8).collect(),
        [vec![7u8; 500], vec![9u8; 20], vec![200u8; 3], vec![0u8]].concat(),
    ];
    for data in samples.iter() {
        let encoded = Huffman::new().encode(data).unwrap();
        let decoded = Huffman::new().decode(&encoded, data.len()).unwrap();
        assert_eq!(&decoded, data);
    }
}

#[test]
fn huffman_decoding_reports_bad_input() {
    let data = vec![1u8, 2, 2, 3, 3, 3, 1, 1, 1, 1];
    let encoded = Huffman::new().encode(&data).unwrap();
    let huffman = Huffman::new();
    assert_eq!(huffman.decode(&encoded, 0).unwrap(), Vec::<u8>::new());
    let mut wrong_version = encoded.clone();
    wrong_version[0] = 3;
    assert_eq!(
        huffman.decode(&wrong_version, data.len()),
        Err(LepccError::Failed("Invalid code table".to_string()))
    );
    assert_eq!(
        huffman.decode(&encoded[..10], data.len()),
        Err(LepccError::Failed("Invalid code table".to_string()))
    );
    assert_eq!(
        huffman.decode(&encoded, 1000),
        Err(LepccError::Failed("Invalid Huffman code".to_string()))
    );
}

#[test]
fn huffman_coded_flag_blob_is_read_back() {
    let data = vec![1u8, 2, 2, 3, 3, 3, 1, 1, 1, 1];
    let body = Huffman::new().encode(&data).unwrap();
    let mut blob = b"FlagBytes ".to_vec();
    blob.extend_from_slice(&1u16.to_le_bytes());
    blob.extend_from_slice(&0u32.to_le_bytes());
    blob.extend_from_slice(&((32 + body.len()) as i64).to_le_bytes());
    blob.extend_from_slice(&(data.len() as u32).to_le_bytes());
    blob.push(1);
    blob.push(0);
    blob.extend_from_slice(&0u16.to_le_bytes());
    blob.extend_from_slice(&body);
    let checksum = compute_checksum_fletcher32(&blob[16..]);
    blob[12..16].copy_from_slice(&checksum.to_le_bytes());
    assert_eq!(decompress_flag_bytes(&blob).unwrap(), data);
    assert_eq!(FlagBytesDecoder::decode(&blob).unwrap(), data);
}
