use hayro_jpeg2000::boxes::tag_to_string;
use hayro_jpeg2000::error::{DecodeError, FormatError, MarkerError, ValidationError};
use hayro_jpeg2000::integration::{ColorType, ExtendedColorType, Jp2Decoder};
use hayro_jpeg2000::jp2::cdef::{ChannelAssociation, ChannelDefinition, ChannelDefinitionBox, ChannelType};
use hayro_jpeg2000::jp2::icc::{ICCColorSpace, ICCMetadata};
use hayro_jpeg2000::jp2::pclr::{PaletteBox, PaletteColumn};
use hayro_jpeg2000::{ColorSpace, DecodeSettings, Image};

/// A codestream of an 8x8 image with one tile in which every packet is
/// empty, with `components` components of `depth` bits.
fn codestream(components: u16, depth: u8) -> Vec<u8> {
    let mut d = vec![0xFF, 0x4F, 0xFF, 0x51];
    d.extend_from_slice(&(38 + 3 * components).to_be_bytes());
    d.extend_from_slice(&[0, 0]);
    for v in [8u32, 8, 0, 0, 8, 8, 0, 0] {
        d.extend_from_slice(&v.to_be_bytes());
    }
    d.extend_from_slice(&components.to_be_bytes());
    for _ in 0..components {
        d.extend_from_slice(&[depth - 1, 1, 1]);
    }
    d.extend_from_slice(&[0xFF, 0x52, 0x00, 0x0C, 0x00, 0x00, 0x00, 0x01]);
    d.extend_from_slice(&[0x00, 0x00, 0x04, 0x04, 0x00, 0x01]);
    d.extend_from_slice(&[0xFF, 0x5C, 0x00, 0x04, 0x40, 0x40]);
    let packets = components as u32;
    d.extend_from_slice(&[0xFF, 0x90, 0x00, 0x0A, 0x00, 0x00]);
    d.extend_from_slice(&(14 + packets).to_be_bytes());
    d.extend_from_slice(&[0x00, 0x01, 0xFF, 0x93]);
    for _ in 0..packets {
        d.push(0x00);
    }
    d.extend_from_slice(&[0xFF, 0xD9]);
    d
}

fn jp2_box(tag: &[u8; 4], payload: &[u8]) -> Vec<u8> {
    let mut b = ((8 + payload.len()) as u32).to_be_bytes().to_vec();
    b.extend_from_slice(tag);
    b.extend_from_slice(payload);
    b
}

fn colr_enumerated(cs: u32) -> Vec<u8> {
    let mut p = vec![1, 0, 0];
    p.extend_from_slice(&cs.to_be_bytes());
    jp2_box(b"colr", &p)
}

fn cdef(entries: &[(u16, u16, u16)]) -> Vec<u8> {
    let mut p = (entries.len() as u16).to_be_bytes().to_vec();
    for (c, t, a) in entries {
        p.extend_from_slice(&c.to_be_bytes());
        p.extend_from_slice(&t.to_be_bytes());
        p.extend_from_slice(&a.to_be_bytes());
    }
    jp2_box(b"cdef", &p)
}

/// A JP2 file with the given children of the header box around a
/// codestream.
fn jp2(header_children: &[Vec<u8>], codestream: &[u8]) -> Vec<u8> {
    let mut f = jp2_box(b"jP  ", &[0x0D, 0x0A, 0x87, 0x0A]);
    f.extend_from_slice(&jp2_box(b"ftyp", b"jp2 \0\0\0\0jp2 "));
    let mut header = Vec::new();
    for c in header_children {
        header.extend_from_slice(c);
    }
    f.extend_from_slice(&jp2_box(b"jp2h", &header));
    f.extend_from_slice(&jp2_box(b"jp2c", codestream));
    f
}

#[test]
fn tag_of_file_type_box() {
    assert_eq!(tag_to_string(0x66747970), "ftyp");
    assert_eq!(tag_to_string(0x6A703268), "jp2h");
}

#[test]
fn invalid_signature() {
    let data = b"not an image at all";
    let r = Image::new(data, &DecodeSettings::default());
    assert!(matches!(r, Err(DecodeError::Format(FormatError::InvalidSignature))));
}

#[test]
fn raw_codestream_is_rgb_or_gray() {
    let data = codestream(3, 8);
    let image = Image::new(&data, &DecodeSettings::default()).unwrap();
    assert!(matches!(image.color_space(), ColorSpace::RGB));
    assert!(!image.has_alpha());
    assert_eq!(image.original_bit_depth(), 8);
    assert_eq!(image.color_type(), ColorType::Rgb8);
    assert_eq!(image.original_color_type(), ExtendedColorType::Rgb8);

    let data = codestream(1, 4);
    let image = Image::new(&data, &DecodeSettings::default()).unwrap();
    assert!(matches!(image.color_space(), ColorSpace::Gray));
    assert_eq!(image.color_type(), ColorType::L8);
    assert_eq!(image.original_color_type(), ExtendedColorType::L4);
}

#[test]
fn raw_codestream_with_extra_channel_is_alpha() {
    // Two components for a gray image: the second one is taken as alpha.
    let data = codestream(2, 8);
    let image = Image::new(&data, &DecodeSettings::default()).unwrap();
    assert!(matches!(image.color_space(), ColorSpace::Gray));
    assert!(image.has_alpha());
    assert_eq!(image.color_type(), ColorType::La8);

    // Strict decoding tries to repair the color space instead, which two
    // components without alpha do not allow.
    let settings = DecodeSettings { strict: true, ..DecodeSettings::default() };
    let r = Image::new(&data, &settings);
    assert!(matches!(r, Err(DecodeError::Validation(ValidationError::TooManyChannels))));
}

#[test]
fn too_many_channels() {
    let data = codestream(5, 8);
    let settings = DecodeSettings { strict: true, ..DecodeSettings::default() };
    let r = Image::new(&data, &settings);
    assert!(matches!(r, Err(DecodeError::Validation(ValidationError::TooManyChannels))));
}

#[test]
fn jp2_with_srgb_colour_box() {
    let data = jp2(&[colr_enumerated(16)], &codestream(3, 8));
    let image = Image::new(&data, &DecodeSettings::default()).unwrap();
    assert_eq!(image.width(), 8);
    assert_eq!(image.height(), 8);
    assert!(matches!(image.color_space(), ColorSpace::RGB));
    assert_eq!(image.color_space().num_channels(), 3);
    assert!(!image.has_alpha());
}

#[test]
fn jp2_with_cmyk_colour_box() {
    let data = jp2(&[colr_enumerated(12)], &codestream(4, 8));
    let image = Image::new(&data, &DecodeSettings::default()).unwrap();
    assert!(matches!(image.color_space(), ColorSpace::CMYK));
    assert_eq!(image.color_type(), ColorType::Rgb8);
    assert_eq!(image.original_color_type(), ExtendedColorType::Cmyk8);
}

#[test]
fn jp2_with_opacity_channel() {
    let data = jp2(&[colr_enumerated(17), cdef(&[(0, 0, 1), (1, 1, 0)])], &codestream(2, 8));
    let image = Image::new(&data, &DecodeSettings::default()).unwrap();
    assert!(matches!(image.color_space(), ColorSpace::Gray));
    assert!(image.has_alpha());
    let defs = image.boxes.channel_definition.as_ref().unwrap();
    assert_eq!(defs.channel_definitions.len(), 2);
    assert_eq!(defs.channel_definitions[1].channel_type, ChannelType::Opacity);
    assert_eq!(defs.channel_definitions[1].association, ChannelAssociation::WholeImage);
    assert_eq!(defs.component_order(2), vec![0, 1]);
}

#[test]
fn jp2_without_codestream() {
    let mut f = jp2_box(b"jP  ", &[0x0D, 0x0A, 0x87, 0x0A]);
    f.extend_from_slice(&jp2_box(b"ftyp", b"jp2 \0\0\0\0jp2 "));
    f.extend_from_slice(&jp2_box(b"jp2h", &colr_enumerated(16)));
    let r = Image::new(&f, &DecodeSettings::default());
    assert!(matches!(r, Err(DecodeError::Format(FormatError::MissingCodestream))));
}

#[test]
fn jp2_without_file_type() {
    let mut f = jp2_box(b"jP  ", &[0x0D, 0x0A, 0x87, 0x0A]);
    f.extend_from_slice(&jp2_box(b"jp2h", &colr_enumerated(16)));
    let r = Image::new(&f, &DecodeSettings::default());
    assert!(matches!(r, Err(DecodeError::Format(FormatError::InvalidFileType))));
}

#[test]
fn component_order_by_association() {
    let def = |idx: u16, association: ChannelAssociation| ChannelDefinition {
        channel_index: idx,
        channel_type: ChannelType::Colour,
        association,
    };
    let cdef = ChannelDefinitionBox {
        channel_definitions: vec![
            def(0, ChannelAssociation::WholeImage),
            def(1, ChannelAssociation::Colour(3)),
            def(2, ChannelAssociation::Colour(1)),
            def(3, ChannelAssociation::Colour(3)),
        ],
    };
    assert_eq!(cdef.component_order(4), vec![2, 1, 3, 0]);
    // Only as many components as there are definitions, and no more than
    // there are components.
    assert_eq!(cdef.component_order(6), vec![2, 1, 3, 0]);
    assert_eq!(cdef.component_order(2), vec![1, 0]);
}

#[test]
fn icc_color_space_from_header() {
    let mut profile = vec![0u8; 128];
    profile[16..20].copy_from_slice(b"RGB ");
    let m = ICCMetadata::from_data(&profile).unwrap();
    assert_eq!(m.color_space, ICCColorSpace::Rgb);
    assert_eq!(m.color_space.num_components(), 3);
    profile[16..20].copy_from_slice(b"CMYK");
    assert_eq!(ICCMetadata::from_data(&profile).unwrap().color_space.num_components(), 4);
    profile[16..20].copy_from_slice(b"????");
    assert!(ICCMetadata::from_data(&profile).is_none());
    assert!(ICCMetadata::from_data(&profile[..19]).is_none());
}

#[test]
fn palette_lookup() {
    let palette = PaletteBox {
        entries: vec![vec![1, 2], vec![3, 4]],
        columns: vec![PaletteColumn { bit_depth: 8 }, PaletteColumn { bit_depth: 8 }],
    };
    assert_eq!(palette.map(1, 0), Some(3));
    assert_eq!(palette.map(0, 1), Some(2));
    assert_eq!(palette.map(2, 0), None);
    assert_eq!(palette.map(0, 2), None);
}

#[test]
fn decoder_describes_image() {
    let decoder = Jp2Decoder::new(jp2(&[colr_enumerated(16)], &codestream(3, 8))).unwrap();
    assert_eq!(decoder.width, 8);
    assert_eq!(decoder.height, 8);
    assert_eq!(decoder.color_type, ColorType::Rgb8);
    assert_eq!(decoder.orig_color_type, ExtendedColorType::Rgb8);

    let decoder = Jp2Decoder::new(codestream(2, 8)).unwrap();
    assert_eq!(decoder.color_type, ColorType::La8);
    assert_eq!(decoder.orig_color_type, ExtendedColorType::La8);

    assert!(matches!(
        Jp2Decoder::new(b"garbage".to_vec()),
        Err(DecodeError::Format(FormatError::InvalidSignature))
    ));
}

#[test]
fn unknown_color_type_counts_bits() {
    // Five components without a color specification box: an unknown color
    // space of five channels, reported by its bits per pixel.
    let data = jp2(&[], &codestream(5, 8));
    let image = Image::new(&data, &DecodeSettings::default()).unwrap();
    assert!(matches!(image.color_space(), ColorSpace::Unknown { num_channels: 5 }));
    assert_eq!(image.original_color_type(), ExtendedColorType::Unknown(40));
    assert_eq!(image.color_type(), ColorType::Rgb8);
}

#[test]
fn jp2_without_image_boxes() {
    let mut f = jp2_box(b"jP  ", &[0x0D, 0x0A, 0x87, 0x0A]);
    f.extend_from_slice(&jp2_box(b"ftyp", b"jp2 \0\0\0\0jp2 "));
    f.extend_from_slice(&jp2_box(b"xml ", b"<a/>"));
    let r = Image::new(&f, &DecodeSettings::default());
    assert!(matches!(r, Err(DecodeError::Format(FormatError::InvalidBox))));
}

/// The codestream of `codestream(2, 8)` with the marker segments `extra`
/// after its QCD marker segment.
fn codestream_with(extra: &[u8]) -> Vec<u8> {
    let base = codestream(2, 8);
    // SOC, SIZ (2 + 38 + 6 bytes), COD (14 bytes), QCD (6 bytes).
    let at = 2 + 2 + 38 + 6 + 14 + 6;
    let mut d = base[..at].to_vec();
    d.extend_from_slice(extra);
    d.extend_from_slice(&base[at..]);
    d
}

#[test]
fn component_coding_style_from_coc() {
    // COC for component 1: no precincts, no decomposition, 8x8 code-blocks.
    let d = codestream_with(&[0xFF, 0x53, 0x00, 0x09, 0x01, 0x00, 0x00, 0x01, 0x01, 0x00, 0x01]);
    let img = Image::new(&d, &DecodeSettings::default()).unwrap();
    let infos = &img.header.component_infos;
    assert_eq!(infos[0].coding_style.parameters.code_block_width, 6);
    assert_eq!(infos[0].coding_style.parameters.code_block_height, 6);
    assert_eq!(infos[1].coding_style.parameters.code_block_width, 3);
    assert_eq!(infos[1].coding_style.parameters.code_block_height, 3);
}

#[test]
fn component_quantization_from_qcc() {
    // QCC for component 0: no quantization, one guard bit.
    let d = codestream_with(&[0xFF, 0x5D, 0x00, 0x05, 0x00, 0x20, 0x48]);
    let img = Image::new(&d, &DecodeSettings::default()).unwrap();
    let infos = &img.header.component_infos;
    assert_eq!(infos[0].quantization_info.guard_bits, 1);
    assert_eq!(infos[1].quantization_info.guard_bits, 2);
}

#[test]
fn coc_for_missing_component() {
    let d = codestream_with(&[0xFF, 0x53, 0x00, 0x09, 0x05, 0x00, 0x00, 0x01, 0x01, 0x00, 0x01]);
    let r = Image::new(&d, &DecodeSettings::default());
    assert!(matches!(r, Err(DecodeError::Marker(MarkerError::ParseFailure("COC")))));
}

#[test]
fn unsupported_main_header_marker() {
    // A POC marker segment is not supported.
    let d = codestream_with(&[0xFF, 0x5F, 0x00, 0x02]);
    let r = Image::new(&d, &DecodeSettings::default());
    assert!(matches!(r, Err(DecodeError::Marker(MarkerError::Unsupported))));
}

#[test]
fn opacity_channel_without_room_for_it() {
    // An sRGB image whose channel definitions end in an opacity channel, but
    // whose three components only fill the color channels: no alpha.
    let data = jp2(&[colr_enumerated(16), cdef(&[(0, 0, 1), (1, 0, 2), (2, 0, 3), (3, 1, 0)])], &codestream(3, 8));
    let image = Image::new(&data, &DecodeSettings::default()).unwrap();
    assert!(matches!(image.color_space(), ColorSpace::RGB));
    assert!(!image.has_alpha());
    assert_eq!(image.color_type(), ColorType::Rgb8);
}

#[test]
fn raw_codestream_colour_spaces_by_component_count() {
    let settings = DecodeSettings::default();
    let d1 = codestream(1, 8);
    let image = Image::new(&d1, &settings).unwrap();
    assert!(matches!(image.color_space(), ColorSpace::Gray));
    assert!(!image.has_alpha());
    let d3 = codestream(3, 8);
    let image = Image::new(&d3, &settings).unwrap();
    assert!(matches!(image.color_space(), ColorSpace::RGB));
    assert!(!image.has_alpha());
    let d4 = codestream(4, 8);
    let image = Image::new(&d4, &settings).unwrap();
    assert!(matches!(image.color_space(), ColorSpace::RGB));
    assert!(image.has_alpha());
    let d5 = codestream(5, 8);
    let r = Image::new(&d5, &settings);
    assert!(matches!(r, Err(DecodeError::Validation(ValidationError::TooManyChannels))));
}

#[test]
fn jp2_without_codestream_box() {
    let mut f = jp2_box(b"jP  ", &[0x0D, 0x0A, 0x87, 0x0A]);
    f.extend_from_slice(&jp2_box(b"ftyp", b"jp2 \0\0\0\0jp2 "));
    f.extend_from_slice(&jp2_box(b"jp2h", &colr_enumerated(16)));
    assert!(matches!(Image::new(&f, &DecodeSettings::default()), Err(DecodeError::Format(FormatError::MissingCodestream))));
}

#[test]
fn palette_without_component_mapping_maps_component_zero() {
    // One 8-bit palette column with two entries, and no cmap box.
    let pclr = jp2_box(b"pclr", &[0x00, 0x02, 0x01, 0x07, 10, 20]);
    let data = jp2(&[colr_enumerated(17), pclr], &codestream(1, 8));
    let settings = DecodeSettings { target_resolution: Some((1, 1)), ..DecodeSettings::default() };
    let image = Image::new(&data, &settings).unwrap();
    let mapping = image.boxes.component_mapping.as_ref().unwrap();
    assert_eq!(mapping.entries.len(), 1);
    assert_eq!(mapping.entries[0].component_index, 0);
    assert_eq!(mapping.entries[0].mapping_type, hayro_jpeg2000::jp2::cmap::ComponentMappingType::Palette { column: 0 });
    assert_eq!(image.settings.target_resolution, None);
}

#[test]
fn unreadable_colour_box_leaves_boxes_unchanged() {
    let mut boxes = hayro_jpeg2000::jp2::ImageBoxes::new();
    assert!(hayro_jpeg2000::jp2::colr::parse(&mut boxes, &[1]).is_err());
    assert!(boxes.color_specification.is_none());
    assert!(boxes.channel_definition.is_none());
}

#[test]
fn jp2_without_header_box() {
    let mut f = jp2_box(b"jP  ", &[0x0D, 0x0A, 0x87, 0x0A]);
    f.extend_from_slice(&jp2_box(b"ftyp", b"jp2 \0\0\0\0jp2 "));
    f.extend_from_slice(&jp2_box(b"jp2c", &codestream(1, 8)));
    assert!(matches!(Image::new(&f, &DecodeSettings::default()), Err(DecodeError::Format(FormatError::InvalidBox))));
}

#[test]
fn unsupported_enumerated_colour_space() {
    // Enumerated colour space 11 (CMY) can be read but is not supported.
    let data = jp2(&[colr_enumerated(11)], &codestream(3, 8));
    assert!(matches!(Image::new(&data, &DecodeSettings::default()), Err(DecodeError::Format(FormatError::Unsupported))));
}

#[test]
fn only_the_first_colour_box_counts() {
    let data = jp2(&[colr_enumerated(17), colr_enumerated(16)], &codestream(1, 8));
    let image = Image::new(&data, &DecodeSettings::default()).unwrap();
    assert!(matches!(image.color_space(), ColorSpace::Gray));
}
