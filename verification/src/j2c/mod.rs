//! Decoding of raw JPEG 2000 codestreams.

pub mod arithmetic_decoder;
pub mod codestream;
pub mod decode;
pub mod idwt;
pub mod passes;
pub mod bitplane;
pub mod blocks;
pub mod markers;
pub mod progression;
pub mod rect;
pub mod segment;
pub mod tag_tree;
pub mod tile;

use crate::error::{DecodeError, MarkerError, Result};
use crate::j2c::codestream::{
    after_siz, header_matches, header_passes, main_header_markers, min_resolution_levels, read_header, siz_component,
    siz_csiz, siz_grid_matches, siz_passes, skipped_levels_spec, u32_at, Header,
};
use crate::math::ceil_div;
use vstd::arithmetic::power2::pow2;
use crate::reader::BitReader;
use crate::jp2::colr::{ColorSpace, ColorSpecificationBox, EnumeratedColorspace};
use crate::jp2::ImageBoxes;
use crate::{resolve_alpha_and_color_space, DecodeSettings, Image};
use vstd::prelude::*;

verus! {

/// A codestream whose main header has been read.
pub struct ParsedCodestream<'a> {
    /// The main header.
    pub header: Header<'a>,
    /// The rest of the codestream, starting at the first tile-part.
    pub data: &'a [u8],
}

/// The header is that of the codestream `stream`: the reference grid and
/// the components are those of the SIZ marker segment that follows the SOC
/// marker, and the coding styles and quantizations those of the marker
/// segments after it.
pub open spec fn raw_header_matches(header: &Header, stream: Seq<u8>) -> bool {
    let csiz = siz_csiz(stream, 4) as u16;
    &&& header.size_data.reference_grid_width == u32_at(stream, 8)
    &&& header.size_data.reference_grid_height == u32_at(stream, 12)
    &&& header.size_data.component_sizes@ == Seq::new(siz_csiz(stream, 4) as nat, |i: int| siz_component(stream, 4, i))
    &&& main_header_markers(stream, after_siz(stream, 2), csiz) matches Ok(ms) && header_matches(*header, ms, stream, csiz)
    &&& siz_grid_matches(&header.size_data, stream, 4)
    &&& header.size_data.x_resolution_shrink_factor == pow2(header.skipped_resolution_levels as nat)
    &&& header.size_data.y_resolution_shrink_factor == pow2(header.skipped_resolution_levels as nat)
}

/// The header skips the resolution levels that the target resolution of
/// the settings asks for (`skipped_levels_spec`).
pub open spec fn skips_for_target(header: &Header, settings: &DecodeSettings) -> bool {
    let s = header.size_data;
    header.skipped_resolution_levels == skipped_levels_spec(
        settings.target_resolution,
        ceil_div(s.reference_grid_width - s.image_area_x_offset, s.x_shrink_factor as int),
        ceil_div(s.reference_grid_height - s.image_area_y_offset, s.y_shrink_factor as int),
        min_resolution_levels(header.component_infos@),
    )
}

/// The codestream starts with the SOC and SIZ markers, its SIZ marker
/// segment passes its checks, and the marker segments of its main header
/// can be read and describe components that pass validation.
pub open spec fn raw_header_passes(stream: Seq<u8>) -> bool {
    let csiz = siz_csiz(stream, 4) as u16;
    &&& stream.len() >= 4
    &&& stream[0] == 0xff
    &&& stream[1] == markers::SOC
    &&& stream[2] == 0xff
    &&& stream[3] == markers::SIZ
    &&& siz_passes(stream, 4)
    &&& main_header_markers(stream, after_siz(stream, 2), csiz) matches Ok(ms) && header_passes(ms, stream, csiz)
}

/// The color space that a raw codestream is assumed to have: grayscale for
/// fewer than three components, else sRGB.
pub open spec fn raw_color_space(num_components: int) -> crate::ColorSpace {
    if num_components < 3 {
        crate::ColorSpace::Gray
    } else {
        crate::ColorSpace::RGB
    }
}

/// Read the SOC marker and the main header of a raw codestream.
pub fn parse_raw<'a>(stream: &'a [u8], settings: &DecodeSettings) -> (r: Result<ParsedCodestream<'a>>)
    requires
        stream@.len() * 8 <= usize::MAX,
        settings.wf(),
    ensures
        (stream@.len() < 2 || stream@[0] != 0xff) ==> r == Err::<ParsedCodestream<'a>, DecodeError>(
            DecodeError::Marker(MarkerError::Invalid),
        ),
        (stream@.len() >= 2 && stream@[0] == 0xff && stream@[1] != markers::SOC) ==> r == Err::<
            ParsedCodestream<'a>,
            DecodeError,
        >(DecodeError::Marker(MarkerError::Expected("SOC"))),
        (stream@.len() >= 4 && stream@[0] == 0xff && stream@[1] == markers::SOC && stream@[2] == 0xff
            && stream@[3] != markers::SIZ) ==> r == Err::<ParsedCodestream<'a>, DecodeError>(
            DecodeError::Marker(MarkerError::Expected("SIZ")),
        ),
        r matches Ok(pc) ==> {
            &&& stream@[0] == 0xff
            &&& stream@[1] == markers::SOC
            &&& stream@[2] == 0xff
            &&& stream@[3] == markers::SIZ
            &&& pc.header.wf()
            &&& pc.header.strict == settings.strict
            &&& pc.data@.len() >= 2
            &&& pc.data@[0] == 0xff
            &&& pc.data@[1] == markers::SOT
            &&& pc.data@ == stream@.subrange(stream@.len() - pc.data@.len(), stream@.len() as int)
            &&& raw_header_matches(&pc.header, stream@)
            &&& skips_for_target(&pc.header, settings)
        },
        raw_header_passes(stream@) ==> r is Ok,
{
    let mut reader = BitReader::new(stream);
    let marker = match reader.read_marker() {
        Ok(m) => m,
        Err(e) => return Err(e),
    };
    if marker != markers::SOC {
        return Err(DecodeError::Marker(MarkerError::Expected("SOC")));
    }
    proof {
        assert(reader.spec_byte_pos() == 2);
        assert(reader.bytes() == stream@);
    }
    let header = match read_header(&mut reader, settings) {
        Ok(h) => h,
        Err(e) => return Err(e),
    };
    let data = match reader.tail() {
        Some(d) => d,
        None => return Err(DecodeError::Marker(MarkerError::Invalid)),
    };
    Ok(ParsedCodestream { header, data })
}

/// Read a raw codestream into an image. Without JP2 boxes, the color space
/// is assumed to be grayscale for fewer than three components and sRGB
/// otherwise.
pub fn parse<'a>(stream: &'a [u8], settings: &DecodeSettings) -> (r: Result<Image<'a>>)
    requires
        stream@.len() * 8 <= usize::MAX,
        settings.wf(),
    ensures
        r matches Ok(img) ==> img.wf() && img.codestream@ == stream@.subrange(
            stream@.len() - img.codestream@.len(),
            stream@.len() as int,
        ) && raw_header_matches(&img.header, stream@) && skips_for_target(&img.header, settings) && img.settings == *settings,
        r matches Ok(img) ==> crate::repair_spec(
            raw_color_space(img.header.component_infos@.len() as int),
            false,
            false,
            settings,
            img.header.component_infos@.len() as int,
        ) == Some((img.color_space, img.has_alpha)),
        (stream@.len() < 2 || stream@[0] != 0xff) ==> r == Err::<Image<'a>, DecodeError>(
            DecodeError::Marker(MarkerError::Invalid),
        ),
        (stream@.len() >= 2 && stream@[0] == 0xff && stream@[1] != markers::SOC) ==> r == Err::<Image<'a>, DecodeError>(
            DecodeError::Marker(MarkerError::Expected("SOC")),
        ),
        (stream@.len() >= 4 && stream@[0] == 0xff && stream@[1] == markers::SOC && stream@[2] == 0xff && stream@[3]
            != markers::SIZ) ==> r == Err::<Image<'a>, DecodeError>(DecodeError::Marker(MarkerError::Expected("SIZ"))),
        ({
            let n = siz_csiz(stream@, 4);
            raw_header_passes(stream@) ==> match crate::repair_spec(raw_color_space(n), false, false, settings, n) {
                Some((cs, alpha)) => r matches Ok(img) && img.color_space == cs && img.has_alpha == alpha,
                None => r == Err::<Image<'a>, DecodeError>(
                    DecodeError::Validation(crate::error::ValidationError::TooManyChannels),
                ),
            }
        }),
{
    let parsed_codestream = match parse_raw(stream, settings) {
        Ok(p) => p,
        Err(e) => return Err(e),
    };
    let mut boxes = ImageBoxes::new();

    // If we are just decoding a raw codestream, we assume greyscale or
    // RGB.
    let cs = if parsed_codestream.header.component_infos.len() < 3 {
        ColorSpace::Enumerated(EnumeratedColorspace::Greyscale)
    } else {
        ColorSpace::Enumerated(EnumeratedColorspace::Srgb)
    };
    boxes.color_specification = Some(ColorSpecificationBox { color_space: cs });

    let (color_space, has_alpha) = match resolve_alpha_and_color_space(&boxes, &parsed_codestream.header, settings) {
        Ok(v) => v,
        Err(e) => return Err(e),
    };

    Ok(Image {
        codestream: parsed_codestream.data,
        header: parsed_codestream.header,
        boxes,
        settings: *settings,
        color_space,
        has_alpha,
    })
}

} // verus!
