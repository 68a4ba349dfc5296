use hayro_jpeg2000::j2c::decode::{
    decode_tile, num_bitplanes, progression_for_tile, quantization_step, DecompositionStorage, TileDecodeContext,
};
use hayro_jpeg2000::j2c::progression::ProgressionData;
use hayro_jpeg2000::{DecodeSettings, Image};

/// A codestream of an 8x8 image with one tile in which every packet is
/// empty: `components` 8-bit components, `layers` layers, `levels`
/// decomposition levels and the progression order with code `order`.
fn empty_codestream(components: u16, layers: u16, levels: u8, order: u8) -> Vec<u8> {
    let mut d = vec![0xFF, 0x4F];
    // SIZ
    d.extend_from_slice(&[0xFF, 0x51]);
    d.extend_from_slice(&(38 + 3 * components).to_be_bytes());
    d.extend_from_slice(&[0, 0]);
    for v in [8u32, 8, 0, 0, 8, 8, 0, 0] {
        d.extend_from_slice(&v.to_be_bytes());
    }
    d.extend_from_slice(&components.to_be_bytes());
    for _ in 0..components {
        d.extend_from_slice(&[7, 1, 1]);
    }
    // COD: 64x64 code-blocks, reversible transform.
    d.extend_from_slice(&[0xFF, 0x52, 0x00, 0x0C, 0x00, order]);
    d.extend_from_slice(&layers.to_be_bytes());
    d.extend_from_slice(&[0x00, levels, 0x04, 0x04, 0x00, 0x01]);
    // QCD: no quantization, two guard bits, exponent 8 for each sub-band.
    let sub_bands = 1 + 3 * levels as u16;
    d.extend_from_slice(&[0xFF, 0x5C]);
    d.extend_from_slice(&(3 + sub_bands).to_be_bytes());
    d.push(0x40);
    for _ in 0..sub_bands {
        d.push(0x40);
    }
    // One tile-part with one zero byte per packet.
    let packets = (layers as u32) * (levels as u32 + 1) * (components as u32);
    let psot = 12 + 2 + packets;
    d.extend_from_slice(&[0xFF, 0x90, 0x00, 0x0A, 0x00, 0x00]);
    d.extend_from_slice(&psot.to_be_bytes());
    d.extend_from_slice(&[0x00, 0x01, 0xFF, 0x93]);
    for _ in 0..packets {
        d.push(0x00);
    }
    d.extend_from_slice(&[0xFF, 0xD9]);
    d
}

fn packets(data: &[u8]) -> Vec<(u8, u8, u8, u64)> {
    let settings = DecodeSettings::default();
    let image = Image::new(data, &settings).unwrap();
    let tiles = image.read_tiles().unwrap();
    let mut progression = progression_for_tile(&tiles[0]).unwrap();
    let mut out = Vec::new();
    while let Some(ProgressionData { layer_num, resolution, component, precinct }) = progression.next() {
        out.push((layer_num, resolution, component, precinct));
    }
    out
}

#[test]
fn decode_tile_of_empty_packets() {
    let data = empty_codestream(2, 2, 1, 0);
    let settings = DecodeSettings::default();
    let image = Image::new(&data, &settings).unwrap();
    assert_eq!(image.width(), 8);
    assert_eq!(image.height(), 8);
    let tiles = image.read_tiles().unwrap();
    assert_eq!(tiles.len(), 1);
    assert_eq!(tiles[0].tile_parts.len(), 1);
    let mut progression = progression_for_tile(&tiles[0]).unwrap();
    let mut ctx = TileDecodeContext::new();
    let mut storage = DecompositionStorage::new();
    decode_tile(&tiles[0], &image.header, &mut progression, &mut ctx, &mut storage).unwrap();
    assert_eq!(storage.tile_decompositions.len(), 2);
    assert_eq!(storage.coefficients.len(), 2 * 64);
    assert!(storage.coefficients.iter().all(|&c| c == 0));
    assert!(storage.code_blocks.iter().all(|b| b.number_of_coding_passes == 0));
}

#[test]
fn bitplanes_of_sub_band() {
    let data = empty_codestream(1, 1, 1, 0);
    let settings = DecodeSettings::default();
    let image = Image::new(&data, &settings).unwrap();
    let info = &image.header.component_infos[0];
    let ll = hayro_jpeg2000::j2c::blocks::SubBandType::LowLow;
    // Two guard bits and exponent 8: 2 + 8 - 1 bitplanes.
    assert_eq!(num_bitplanes(info, ll, 0).unwrap(), 9);
}

#[test]
fn layer_resolution_order() {
    let got = packets(&empty_codestream(2, 2, 1, 0));
    let expected = vec![
        (0, 0, 0, 0),
        (0, 0, 1, 0),
        (0, 1, 0, 0),
        (0, 1, 1, 0),
        (1, 0, 0, 0),
        (1, 0, 1, 0),
        (1, 1, 0, 0),
        (1, 1, 1, 0),
    ];
    assert_eq!(got, expected);
}

#[test]
fn resolution_layer_order() {
    let got = packets(&empty_codestream(2, 2, 1, 1));
    let expected = vec![
        (0, 0, 0, 0),
        (0, 0, 1, 0),
        (1, 0, 0, 0),
        (1, 0, 1, 0),
        (0, 1, 0, 0),
        (0, 1, 1, 0),
        (1, 1, 0, 0),
        (1, 1, 1, 0),
    ];
    assert_eq!(got, expected);
}

#[test]
fn resolution_position_order() {
    let got = packets(&empty_codestream(2, 2, 1, 2));
    let expected = vec![
        (0, 0, 0, 0),
        (1, 0, 0, 0),
        (0, 0, 1, 0),
        (1, 0, 1, 0),
        (0, 1, 0, 0),
        (1, 1, 0, 0),
        (0, 1, 1, 0),
        (1, 1, 1, 0),
    ];
    assert_eq!(got, expected);
}

#[test]
fn position_component_order() {
    let got = packets(&empty_codestream(2, 2, 1, 3));
    let expected = vec![
        (0, 0, 0, 0),
        (1, 0, 0, 0),
        (0, 1, 0, 0),
        (1, 1, 0, 0),
        (0, 0, 1, 0),
        (1, 0, 1, 0),
        (0, 1, 1, 0),
        (1, 1, 1, 0),
    ];
    assert_eq!(got, expected);
}

#[test]
fn component_position_order() {
    let got = packets(&empty_codestream(2, 2, 1, 4));
    let expected = vec![
        (0, 0, 0, 0),
        (1, 0, 0, 0),
        (0, 1, 0, 0),
        (1, 1, 0, 0),
        (0, 0, 1, 0),
        (1, 0, 1, 0),
        (0, 1, 1, 0),
        (1, 1, 1, 0),
    ];
    assert_eq!(got, expected);
}

#[test]
fn decode_tile_in_each_order() {
    for order in 0..5 {
        let data = empty_codestream(3, 2, 2, order);
        let settings = DecodeSettings::default();
        let image = Image::new(&data, &settings).unwrap();
        let tiles = image.read_tiles().unwrap();
        let mut progression = progression_for_tile(&tiles[0]).unwrap();
        let mut ctx = TileDecodeContext::new();
        let mut storage = DecompositionStorage::new();
        decode_tile(&tiles[0], &image.header, &mut progression, &mut ctx, &mut storage).unwrap();
        assert_eq!(storage.coefficients.len(), 3 * 64);
        assert!(storage.coefficients.iter().all(|&c| c == 0));
    }
}

/// A codestream of a 16x16 gray image with one decomposition level and
/// precincts of 4x4 samples at resolution 0 and 8x8 at resolution 1, so
/// that each resolution has four precincts; every packet is empty.
fn precinct_codestream(order: u8) -> Vec<u8> {
    let mut d = vec![0xFF, 0x4F, 0xFF, 0x51, 0x00, 41, 0, 0];
    for v in [16u32, 16, 0, 0, 16, 16, 0, 0] {
        d.extend_from_slice(&v.to_be_bytes());
    }
    d.extend_from_slice(&[0x00, 0x01, 7, 1, 1]);
    // COD with precinct sizes.
    d.extend_from_slice(&[0xFF, 0x52, 0x00, 0x0E, 0x01, order, 0x00, 0x01]);
    d.extend_from_slice(&[0x00, 0x01, 0x04, 0x04, 0x00, 0x01, 0x22, 0x33]);
    d.extend_from_slice(&[0xFF, 0x5C, 0x00, 0x07, 0x40, 0x40, 0x40, 0x40, 0x40]);
    let packets = 8u32;
    d.extend_from_slice(&[0xFF, 0x90, 0x00, 0x0A, 0x00, 0x00]);
    d.extend_from_slice(&(14 + packets).to_be_bytes());
    d.extend_from_slice(&[0x00, 0x01, 0xFF, 0x93]);
    for _ in 0..packets {
        d.push(0x00);
    }
    d.extend_from_slice(&[0xFF, 0xD9]);
    d
}

#[test]
fn precincts_in_layer_resolution_order() {
    let got = packets(&precinct_codestream(0));
    let expected: Vec<(u8, u8, u8, u64)> =
        vec![(0, 0, 0, 0), (0, 0, 0, 1), (0, 0, 0, 2), (0, 0, 0, 3), (0, 1, 0, 0), (0, 1, 0, 1), (0, 1, 0, 2), (0, 1, 0, 3)];
    assert_eq!(got, expected);
}

#[test]
fn precincts_in_position_component_order() {
    // Sorted by position on the reference grid first: the precincts of
    // both resolutions at the same place come together.
    let got = packets(&precinct_codestream(3));
    let expected: Vec<(u8, u8, u8, u64)> =
        vec![(0, 0, 0, 0), (0, 1, 0, 0), (0, 0, 0, 1), (0, 1, 0, 1), (0, 0, 0, 2), (0, 1, 0, 2), (0, 0, 0, 3), (0, 1, 0, 3)];
    assert_eq!(got, expected);
}

#[test]
fn precincts_in_resolution_position_order() {
    let got = packets(&precinct_codestream(2));
    let expected: Vec<(u8, u8, u8, u64)> =
        vec![(0, 0, 0, 0), (0, 0, 0, 1), (0, 0, 0, 2), (0, 0, 0, 3), (0, 1, 0, 0), (0, 1, 0, 1), (0, 1, 0, 2), (0, 1, 0, 3)];
    assert_eq!(got, expected);
}

#[test]
fn decode_tile_with_precincts() {
    let data = precinct_codestream(4);
    let settings = DecodeSettings::default();
    let image = Image::new(&data, &settings).unwrap();
    let tiles = image.read_tiles().unwrap();
    let mut progression = progression_for_tile(&tiles[0]).unwrap();
    let mut ctx = TileDecodeContext::new();
    let mut storage = DecompositionStorage::new();
    decode_tile(&tiles[0], &image.header, &mut progression, &mut ctx, &mut storage).unwrap();
    assert_eq!(storage.coefficients.len(), 256);
    // Four precincts at each of the two resolutions: one for LL, and one
    // for each of HL, LH and HH.
    assert_eq!(storage.precincts.len(), 4 * 4);
}

#[test]
fn too_many_bitplanes() {
    // Seven guard bits and exponent 31 give 37 bitplanes.
    let mut data = empty_codestream(1, 1, 0, 0);
    let qcd = data.windows(2).position(|w| w == [0xFF, 0x5C]).unwrap();
    data[qcd + 4] = 0xE0;
    data[qcd + 5] = 31 << 3;
    let settings = DecodeSettings::default();
    let image = Image::new(&data, &settings).unwrap();
    let info = &image.header.component_infos[0];
    let r = num_bitplanes(info, hayro_jpeg2000::j2c::blocks::SubBandType::LowLow, 0);
    assert!(matches!(
        r,
        Err(hayro_jpeg2000::error::DecodeError::Decoding(hayro_jpeg2000::error::DecodingError::TooManyBitplanes))
    ));
}

#[test]
fn invalid_bitplane_count() {
    // No guard bits and exponent 0 give no bitplanes at all.
    let mut data = empty_codestream(1, 1, 0, 0);
    let qcd = data.windows(2).position(|w| w == [0xFF, 0x5C]).unwrap();
    data[qcd + 4] = 0x00;
    data[qcd + 5] = 0x00;
    let settings = DecodeSettings::default();
    let image = Image::new(&data, &settings).unwrap();
    let info = &image.header.component_infos[0];
    let r = num_bitplanes(info, hayro_jpeg2000::j2c::blocks::SubBandType::LowLow, 0);
    assert!(matches!(
        r,
        Err(hayro_jpeg2000::error::DecodeError::Decoding(hayro_jpeg2000::error::DecodingError::InvalidBitplaneCount))
    ));
}

#[test]
fn quantization_step_of_sub_band() {
    let ll = hayro_jpeg2000::j2c::blocks::SubBandType::LowLow;
    // Without quantization, the step is one.
    let data = empty_codestream(1, 1, 0, 0);
    let image = Image::new(&data, &DecodeSettings::default()).unwrap();
    assert_eq!(quantization_step(&image.header.component_infos[0], ll, 0).unwrap(), None);

    // Scalar expounded quantization with exponent 6 and mantissa 256 for
    // an 8-bit component: the step is 2^(8 - 6) * (1 + 256 / 2048).
    let mut data = empty_codestream(1, 1, 0, 0);
    let qcd = data.windows(2).position(|w| w == [0xFF, 0x5C]).unwrap();
    data.splice(qcd..qcd + 6, [0xFF, 0x5C, 0x00, 0x05, 0x42, 0x31, 0x00]);
    let image = Image::new(&data, &DecodeSettings::default()).unwrap();
    assert_eq!(quantization_step(&image.header.component_infos[0], ll, 0).unwrap(), Some((2, 256)));
}

/// The codestream of `empty_codestream(1, 1, 1, 0)` with the given tile
/// index and tile-part length in its SOT marker segment, and with or
/// without the final EOC marker.
fn codestream_with_sot(isot: u16, psot: u32, eoc: bool) -> Vec<u8> {
    let mut d = empty_codestream(1, 1, 1, 0);
    let p = d.windows(2).position(|w| w == [0xFF, 0x90]).unwrap();
    d[p + 4..p + 6].copy_from_slice(&isot.to_be_bytes());
    d[p + 6..p + 10].copy_from_slice(&psot.to_be_bytes());
    if !eoc {
        d.truncate(d.len() - 2);
    }
    d
}

#[test]
fn tile_part_of_length_zero_holds_the_rest() {
    let data = codestream_with_sot(0, 0, false);
    let settings = DecodeSettings::default();
    let image = Image::new(&data, &settings).unwrap();
    let tiles = image.read_tiles().unwrap();
    assert_eq!(tiles.len(), 1);
    assert_eq!(tiles[0].tile_parts.len(), 1);
    assert_eq!(tiles[0].tile_parts[0].data, &[0u8, 0][..]);
    assert!(tiles[0].tile_parts[0].packed_headers.is_none());
    let mut progression = progression_for_tile(&tiles[0]).unwrap();
    let mut ctx = TileDecodeContext::new();
    let mut storage = DecompositionStorage::new();
    decode_tile(&tiles[0], &image.header, &mut progression, &mut ctx, &mut storage).unwrap();
    assert_eq!(storage.coefficients.len(), 64);
}

#[test]
fn tile_part_with_index_out_of_range() {
    let data = codestream_with_sot(1, 16, true);
    let settings = DecodeSettings::default();
    let image = Image::new(&data, &settings).unwrap();
    assert!(matches!(
        image.read_tiles(),
        Err(hayro_jpeg2000::error::DecodeError::Tile(hayro_jpeg2000::error::TileError::InvalidIndex))
    ));
}

#[test]
fn tile_part_shorter_than_its_header() {
    let data = codestream_with_sot(0, 5, true);
    let settings = DecodeSettings::default();
    let image = Image::new(&data, &settings).unwrap();
    assert!(matches!(
        image.read_tiles(),
        Err(hayro_jpeg2000::error::DecodeError::Tile(hayro_jpeg2000::error::TileError::Invalid))
    ));
}

#[test]
fn context_starts_empty() {
    let ctx = TileDecodeContext::new();
    assert_eq!(ctx.bit_plane_decode_context.width, 0);
    assert_eq!(ctx.bit_plane_decode_context.height, 0);
    assert_eq!(ctx.bit_plane_decode_buffers.combined_layers.len(), 0);
    assert_eq!(ctx.bit_plane_decode_buffers.segment_ranges, vec![0usize]);
    assert_eq!(ctx.bit_plane_decode_buffers.segment_coding_passes, vec![0u8]);
}

#[test]
fn tile_part_with_length_holds_its_packets() {
    // The tile-part length covers the SOT segment, the SOD marker and the
    // two packet bytes; the EOC marker after it is not part of its data.
    let data = codestream_with_sot(0, 16, true);
    let settings = DecodeSettings::default();
    let image = Image::new(&data, &settings).unwrap();
    let tiles = image.read_tiles().unwrap();
    assert_eq!(tiles[0].tile_parts.len(), 1);
    assert_eq!(tiles[0].tile_parts[0].data, &[0u8, 0][..]);
    assert!(tiles[0].tile_parts[0].packed_headers.is_none());
}

#[test]
fn tile_part_length_past_the_header_keeps_no_data() {
    // A tile-part length of 13 ends inside the SOD marker: the tile-part is
    // left out.
    let data = codestream_with_sot(0, 13, true);
    let settings = DecodeSettings::default();
    let image = Image::new(&data, &settings).unwrap();
    let tiles = image.read_tiles().unwrap();
    assert_eq!(tiles[0].tile_parts.len(), 0);
}

#[test]
fn header_offsets_and_target_resolution() {
    // A target resolution of 1x1 skips as many levels as the single
    // decomposition level allows, halving the 8x8 image.
    let data = empty_codestream(1, 1, 1, 0);
    let settings = DecodeSettings { target_resolution: Some((1, 1)), ..DecodeSettings::default() };
    let image = Image::new(&data, &settings).unwrap();
    assert_eq!(image.header.skipped_resolution_levels, 1);
    assert_eq!(image.width(), 4);
    assert_eq!(image.height(), 4);
}

#[test]
fn tile_parts_follow_one_another() {
    // A second tile-part of the same tile after the first: each keeps the
    // bytes after its SOD marker, in the order in which they stand.
    let mut data = codestream_with_sot(0, 16, true);
    let eoc = data.len() - 2;
    let second = [0xFF, 0x90, 0x00, 0x0A, 0x00, 0x00, 0x00, 0x00, 0x00, 0x0F, 0x01, 0x02, 0xFF, 0x93, 0x07];
    data.splice(eoc..eoc, second.iter().copied());
    let image = Image::new(&data, &DecodeSettings::default()).unwrap();
    let tiles = image.read_tiles().unwrap();
    assert_eq!(tiles.len(), 1);
    assert_eq!(tiles[0].tile_parts.len(), 2);
    assert_eq!(tiles[0].tile_parts[0].data, &[0u8, 0][..]);
    assert_eq!(tiles[0].tile_parts[1].data, &[7u8][..]);
}

#[test]
fn empty_packets_give_no_segments_in_strict_mode() {
    // Every packet of this codestream starts with a zero bit: read in
    // strict mode, each leaves the storage as it is, so no code-block
    // gets a segment.
    let data = empty_codestream(1, 1, 1, 0);
    let settings = DecodeSettings { strict: true, ..DecodeSettings::default() };
    let image = Image::new(&data, &settings).unwrap();
    let tiles = image.read_tiles().unwrap();
    let mut progression = progression_for_tile(&tiles[0]).unwrap();
    let mut ctx = TileDecodeContext::new();
    let mut storage = DecompositionStorage::new();
    decode_tile(&tiles[0], &image.header, &mut progression, &mut ctx, &mut storage).unwrap();
    assert_eq!(storage.segments.len(), 0);
    assert!(storage.coefficients.iter().all(|&c| c == 0));
}
