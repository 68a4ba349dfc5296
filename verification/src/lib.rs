//! A JPEG 2000 decoder whose parsing and entropy-decoding stages carry
//! machine-checked contracts.

use vstd::prelude::*;

pub mod boxes;
pub mod byte_reader;
pub mod error;
pub mod integration;
pub mod j2c;
pub mod jp2;
pub mod math;
pub mod reader;

use crate::error::{ColorError, DecodeError, FormatError, MarkerError, Result, TileError, ValidationError};
use crate::j2c::codestream::Header;
use crate::j2c::codestream::{u16_at, u32_at};
use vstd::arithmetic::power2::pow2;
use crate::j2c::markers;
use crate::j2c::tile::{fresh_tiles, plain_parts_from, tile_parts_walk, tiles_wf, no_sot_at, plain_tile_part_at, tile_part_end, Tile};
use crate::jp2::cdef::ChannelType;
use crate::jp2::colr::EnumeratedColorspace;
use crate::jp2::icc::{icc_components_spec, icc_metadata_spec, ICCMetadata};
use crate::jp2::ImageBoxes;

verus! {

/// Settings to apply during decoding.
#[derive(Debug, Copy, Clone)]
pub struct DecodeSettings {
    /// Whether palette indices should be resolved.
    ///
    /// JPEG2000 images can be stored in two different ways. First, by storing
    /// RGB values (depending on the color space) for each pixel. Secondly, by
    /// only storing a single index for each channel, and then resolving the
    /// actual color using the index.
    ///
    /// If you disable this option, in case you have an image with palette
    /// indices, they will not be resolved, but instead a grayscale image
    /// will be returned, with each pixel value corresponding to the palette
    /// index of the location.
    pub resolve_palette_indices: bool,
    /// Whether strict mode should be enabled when decoding.
    ///
    /// It is recommended to leave this flag disabled, unless you have a
    /// specific reason not to.
    pub strict: bool,
    /// A hint for the target resolution that the image should be decoded at.
    pub target_resolution: Option<(u32, u32)>,
}

impl Default for DecodeSettings {
    fn default() -> (r: Self)
        ensures
            r.resolve_palette_indices,
            !r.strict,
            r.target_resolution is None,
    {
        Self { resolve_palette_indices: true, strict: false, target_resolution: None }
    }
}

impl DecodeSettings {
    /// A requested target resolution has no zero dimension.
    pub open spec fn wf(&self) -> bool {
        self.target_resolution matches Some((w, h)) ==> w > 0 && h > 0
    }
}

/// A JPEG2000 image or codestream.
pub struct Image<'a> {
    /// The codestream containing the data to decode.
    pub codestream: &'a [u8],
    /// The header of the J2C codestream.
    pub header: Header<'a>,
    /// The JP2 boxes of the image. In the case of a raw codestream, we
    /// will synthesize the necessary boxes.
    pub boxes: ImageBoxes,
    /// Settings that should be applied during decoding.
    pub settings: DecodeSettings,
    /// Whether the image has an alpha channel.
    pub has_alpha: bool,
    /// The color space of the image.
    pub color_space: ColorSpace,
}

/// JP2 signature box: 00 00 00 0C 6A 50 20 20.
pub open spec fn jp2_magic() -> Seq<u8> {
    seq![0x00u8, 0x00u8, 0x00u8, 0x0Cu8, 0x6Au8, 0x50u8, 0x20u8, 0x20u8]
}

/// Codestream signature: FF 4F FF 51 (SOC + SIZ markers).
pub open spec fn codestream_magic() -> Seq<u8> {
    seq![0xFFu8, 0x4Fu8, 0xFFu8, 0x51u8]
}

/// `data` starts with `prefix`.
pub open spec fn starts_with(data: Seq<u8>, prefix: Seq<u8>) -> bool {
    data.len() >= prefix.len() && data.subrange(0, prefix.len() as int) == prefix
}

/// Whether `data` starts with the bytes of `prefix`.
fn has_prefix(data: &[u8], prefix: &[u8]) -> (r: bool)
    ensures
        r == starts_with(data@, prefix@),
{
    if data.len() < prefix.len() {
        return false;
    }
    let mut i: usize = 0;
    while i < prefix.len()
        invariant
            i <= prefix@.len() <= data@.len(),
            forall|j: int| 0 <= j < i ==> data@[j] == prefix@[j],
        decreases prefix@.len() - i,
    {
        if data[i] != prefix[i] {
            proof {
                assert(data@.subrange(0, prefix@.len() as int)[i as int] != prefix@[i as int]);
            }
            return false;
        }
        i = i + 1;
    }
    proof {
        assert(data@.subrange(0, prefix@.len() as int) =~= prefix@);
    }
    true
}

/// The default settings: palette indices resolved, not strict, no target
/// resolution.
pub open spec fn default_settings() -> DecodeSettings {
    DecodeSettings { resolve_palette_indices: true, strict: false, target_resolution: None }
}

/// What reading `data` with `settings` promises of the image it gives: a
/// raw codestream gives the header of its SIZ and main header marker
/// segments, skipping the levels that the target resolution asks for; a
/// JP2 file gives the boxes and the header of its codestream box.
pub open spec fn image_read(img: &Image, data: Seq<u8>, settings: &DecodeSettings) -> bool {
    &&& img.wf()
    &&& starts_with(data, codestream_magic()) && !starts_with(data, jp2_magic()) ==> j2c::raw_header_matches(&img.header, data)
        && j2c::skips_for_target(&img.header, settings)
    &&& starts_with(data, jp2_magic()) ==> jp2::jp2_file_matches(img, data, settings.strict) && jp2::jp2_image_read(
        img,
        data,
        settings,
    )
    &&& starts_with(data, codestream_magic()) && !starts_with(data, jp2_magic()) ==> repair_spec(
        j2c::raw_color_space(img.header.component_infos@.len() as int),
        false,
        false,
        settings,
        img.header.component_infos@.len() as int,
    ) == Some((img.color_space, img.has_alpha))
}

/// The codestream that an image read from `data` comes from: `data`
/// itself, or the last codestream box of a JP2 file.
pub open spec fn codestream_of(data: Seq<u8>) -> Seq<u8> {
    if starts_with(data, jp2_magic()) {
        match jp2::jp2_preamble(data) {
            Some(q) => match jp2::last_box(jp2::top_boxes(data, q).0, crate::boxes::CONTIGUOUS_CODESTREAM) {
                Some((s, e)) => data.subrange(s, e),
                None => data,
            },
            None => data,
        }
    } else {
        data
    }
}

/// The size and bit depth of an image that `new` read from `data`: the
/// width is `Xsiz - XOsiz` of the SIZ segment of its codestream, divided,
/// rounded up, by the common horizontal subsampling of the components
/// (one where they differ) and by two to the number of skipped resolution
/// levels, the height likewise, and the bit depth is the precision of the
/// first component. For a raw codestream the skipped levels are those
/// that the target resolution of the settings asks for.
pub proof fn lemma_image_dimensions(img: &Image, data: Seq<u8>, settings: &DecodeSettings)
    requires
        image_read(img, data, settings),
        starts_with(data, jp2_magic()) || starts_with(data, codestream_magic()),
    ensures
        ({
            let b = codestream_of(data);
            let k = img.header.skipped_resolution_levels;
            &&& img.header.size_data.spec_image_width() == crate::math::ceil_div(
                u32_at(b, 8) - u32_at(b, 16),
                crate::j2c::codestream::siz_x_shrink(b, 4) * pow2(k as nat),
            )
            &&& img.header.size_data.spec_image_height() == crate::math::ceil_div(
                u32_at(b, 12) - u32_at(b, 20),
                crate::j2c::codestream::siz_y_shrink(b, 4) * pow2(k as nat),
            )
            &&& img.header.component_infos@.len() > 0
            &&& img.header.component_infos@[0].size_info.precision == ((b[42] & 0x7Fu8) + 1) as u8
        }),
        starts_with(data, codestream_magic()) && !starts_with(data, jp2_magic()) ==> j2c::skips_for_target(&img.header, settings),
{
    let b = codestream_of(data);
    assert(j2c::raw_header_matches(&img.header, b));
    assert(img.header.component_infos@[0].size_info == img.header.size_data.component_sizes@[0]);
}

impl<'a> Image<'a> {
    /// The properties of an image that `new` returns: a header as the
    /// parser guarantees it, and the boxes that were read.
    pub open spec fn wf(&self) -> bool {
        &&& self.header.wf()
        &&& self.boxes.wf()
    }

    /// Try to create a new JPEG2000 image from the given data.
    pub fn new(data: &'a [u8], settings: &DecodeSettings) -> (r: Result<Self>)
        requires
            data@.len() * 8 <= usize::MAX,
            settings.wf(),
        ensures
            !starts_with(data@, jp2_magic()) && !starts_with(data@, codestream_magic()) ==> r == Err::<
                Image<'a>,
                DecodeError,
            >(DecodeError::Format(FormatError::InvalidSignature)),
            r matches Ok(img) ==> img.wf(),
            r matches Ok(img) ==> image_read(&img, data@, settings),
            starts_with(data@, jp2_magic()) && jp2::jp2_boxes_pass(data@, settings.strict) && jp2::colr_unsupported_at(data@)
                ==> r == Err::<Image<'a>, DecodeError>(DecodeError::Format(FormatError::Unsupported)),
            starts_with(data@, jp2_magic()) && jp2::jp2_boxes_pass(data@, settings.strict) && !jp2::colr_unsupported_at(data@)
                ==> r is Ok || r == Err::<Image<'a>, DecodeError>(DecodeError::Validation(ValidationError::TooManyChannels)),
            starts_with(data@, jp2_magic()) && jp2::jp2_boxes_pass(data@, settings.strict) && !jp2::colr_unsupported_at(data@)
                && jp2::colour_fits(data@, settings) ==> r is Ok,
            starts_with(data@, jp2_magic()) && jp2::jp2_boxes_pass(data@, settings.strict) && r == Err::<Image<'a>, DecodeError>(
                DecodeError::Validation(ValidationError::TooManyChannels),
            ) ==> ({
                let n = crate::j2c::codestream::siz_csiz(jp2::last_top_data(data@, crate::boxes::CONTIGUOUS_CODESTREAM), 4);
                exists|bx: jp2::ImageBoxes, cs: ColorSpace|
                    jp2::jp2_boxes_read(&bx, data@) && color_space_matches(&cs, &bx, jp2::components_for_boxes(&bx, n, settings) as usize)
                        && jp2::colour_from_boxes(&bx, n, settings, cs) is None
            }),
            starts_with(data@, jp2_magic()) && jp2::jp2_boxes_pass(data@, settings.strict) ==> r is Ok || r == Err::<
                Image<'a>,
                DecodeError,
            >(DecodeError::Format(FormatError::Unsupported)) || r == Err::<Image<'a>, DecodeError>(
                DecodeError::Validation(ValidationError::TooManyChannels),
            ),
            starts_with(data@, jp2_magic()) && (jp2::jp2_preamble(data@) matches Some(q) && (jp2::last_box(
                jp2::top_boxes(data@, q).0,
                crate::boxes::JP2_HEADER,
            ) is None || jp2::last_box(jp2::top_boxes(data@, q).0, crate::boxes::CONTIGUOUS_CODESTREAM) is None)) ==> r is Err,
            starts_with(data@, codestream_magic()) && !starts_with(data@, jp2_magic()) ==> (r matches Ok(img)
                ==> j2c::raw_header_matches(&img.header, data@) && j2c::skips_for_target(&img.header, settings)
                && repair_spec(
                j2c::raw_color_space(img.header.component_infos@.len() as int),
                false,
                false,
                settings,
                img.header.component_infos@.len() as int,
            ) == Some((img.color_space, img.has_alpha))),
            ({
                let n = crate::j2c::codestream::siz_csiz(data@, 4);
                starts_with(data@, codestream_magic()) && !starts_with(data@, jp2_magic()) && j2c::raw_header_passes(data@)
                    ==> match repair_spec(j2c::raw_color_space(n), false, false, settings, n) {
                    Some((cs, alpha)) => r matches Ok(img) && img.color_space == cs && img.has_alpha == alpha,
                    None => r == Err::<Image<'a>, DecodeError>(DecodeError::Validation(ValidationError::TooManyChannels)),
                }
            }),
            starts_with(data@, jp2_magic()) ==> (r matches Ok(img) ==> jp2::jp2_file_matches(&img, data@, settings.strict)),
            starts_with(data@, jp2_magic()) && jp2::no_image_boxes(data@) ==> r == Err::<Image<'a>, DecodeError>(
                DecodeError::Format(FormatError::InvalidBox),
            ),
    {
        // JP2 signature box: 00 00 00 0C 6A 50 20 20
        let jp2: [u8; 8] = [0x00, 0x00, 0x00, 0x0C, 0x6A, 0x50, 0x20, 0x20];
        // Codestream signature: FF 4F FF 51 (SOC + SIZ markers)
        let codestream: [u8; 4] = [0xFF, 0x4F, 0xFF, 0x51];
        proof {
            assert(jp2@ =~= jp2_magic());
            assert(codestream@ =~= codestream_magic());
        }
        if has_prefix(data, &jp2) {
            jp2::parse(data, *settings)
        } else if has_prefix(data, &codestream) {
            j2c::parse(data, settings)
        } else {
            Err(DecodeError::Format(FormatError::InvalidSignature))
        }
    }

    /// Whether the image has an alpha channel.
    pub fn has_alpha(&self) -> (r: bool)
        ensures
            r == self.has_alpha,
    {
        self.has_alpha
    }

    /// The color space of the image.
    pub fn color_space(&self) -> (r: &ColorSpace)
        ensures
            *r == self.color_space,
    {
        &self.color_space
    }

    /// The width of the image.
    pub fn width(&self) -> (r: u32)
        requires
            self.wf(),
        ensures
            r == self.header.size_data.spec_image_width(),
    {
        self.header.size_data.image_width()
    }

    /// The height of the image.
    pub fn height(&self) -> (r: u32)
        requires
            self.wf(),
        ensures
            r == self.header.size_data.spec_image_height(),
    {
        self.header.size_data.image_height()
    }

    /// The tiles of the image, each with its tile-parts, read from the
    /// codestream data after the main header. An image without tiles is
    /// invalid.
    pub fn read_tiles(&self) -> (r: Result<Vec<Tile<'a>>>)
        requires
            self.wf(),
        ensures
            r matches Ok(tiles) ==> {
                &&& tiles@.len() > 0
                &&& tiles@.len() == self.header.size_data.spec_num_x_tiles() * self.header.size_data.spec_num_y_tiles()
                &&& tiles_wf(tiles@, &self.header)
            },
            self.codestream@.len() > usize::MAX / 8 ==> r == Err::<Vec<Tile<'a>>, DecodeError>(
                DecodeError::Tile(TileError::Invalid),
            ),
            self.header.size_data.spec_num_x_tiles() * self.header.size_data.spec_num_y_tiles() > u32::MAX ==> r == Err::<
                Vec<Tile<'a>>,
                DecodeError,
            >(DecodeError::Tile(TileError::Invalid)),
            ({
                let b = self.codestream@;
                let n = self.header.size_data.spec_num_x_tiles() * self.header.size_data.spec_num_y_tiles();
                b.len() <= usize::MAX / 8 && n <= u32::MAX ==> {
                    &&& !(b.len() >= 2 && b[0] == 0xff) ==> r == Err::<Vec<Tile<'a>>, DecodeError>(
                        DecodeError::Marker(MarkerError::Invalid),
                    )
                    &&& b.len() >= 2 && b[0] == 0xff && b[1] != markers::SOT ==> r == Err::<Vec<Tile<'a>>, DecodeError>(
                        DecodeError::Marker(MarkerError::Expected("SOT")),
                    )
                    &&& b.len() >= 2 && b[0] == 0xff && b[1] == markers::SOT && b.len() < 12 ==> r == Err::<
                        Vec<Tile<'a>>,
                        DecodeError,
                    >(DecodeError::Marker(MarkerError::ParseFailure("SOT")))
                    &&& b.len() >= 12 && b[0] == 0xff && b[1] == markers::SOT && u16_at(b, 4) >= n ==> r == Err::<
                        Vec<Tile<'a>>,
                        DecodeError,
                    >(DecodeError::Tile(TileError::InvalidIndex))
                }
            }),
            r matches Ok(tiles) ==> exists|readers: Seq<crate::reader::BitReader>, ts: Seq<Seq<Tile>>, ks: Seq<int>|
                #[trigger] tile_parts_walk(self.codestream@, 0, readers, ts, ks, self.header.ppm_packets@)
                    && readers.len() >= 1 && fresh_tiles(ts[0], &self.header) && ks[0] == 0 && ts.last() == tiles@
                    && no_sot_at(self.codestream@, readers.last().spec_byte_pos()),
            ({
                let b = self.codestream@;
                let n = self.header.size_data.spec_num_x_tiles() * self.header.size_data.spec_num_y_tiles();
                b.len() <= usize::MAX / 8 && n <= u32::MAX && self.header.ppm_packets@.len() == 0
                    && plain_parts_from(b, 0, n) ==> r is Ok
            }),
            ({
                let b = self.codestream@;
                let n = self.header.size_data.spec_num_x_tiles() * self.header.size_data.spec_num_y_tiles();
                let idx = u16_at(b, 4);
                b.len() <= usize::MAX / 8 && n <= u32::MAX && plain_tile_part_at(b, 0) && no_sot_at(b, tile_part_end(b, 0))
                    && idx < n
                    && self.header.ppm_packets@.len() == 0 ==> (r matches Ok(tiles) && {
                    &&& forall|j: int| 0 <= j < n && j != idx ==> (#[trigger] tiles@[j]).tile_parts@.len() == 0
                    &&& tiles@[idx].tile_parts@.len() == 1
                    &&& tiles@[idx].tile_parts@[0].data@ == b.subrange(14, tile_part_end(b, 0))
                    &&& tiles@[idx].tile_parts@[0].packed_headers is None
                })
            }),
    {
        if self.codestream.len() > usize::MAX / 8 {
            return Err(DecodeError::Tile(TileError::Invalid));
        }
        let mut reader = crate::reader::BitReader::new(self.codestream);
        let tiles = match crate::j2c::tile::parse(&mut reader, &self.header) {
            Ok(t) => t,
            Err(e) => return Err(e),
        };
        if tiles.len() == 0 {
            return Err(DecodeError::Tile(TileError::Invalid));
        }
        Ok(tiles)
    }

    /// The original bit depth of the image. You usually don't need to do anything
    /// with this parameter, it just exists for informational purposes.
    pub fn original_bit_depth(&self) -> (r: u8)
        requires
            self.wf(),
        ensures
            r == self.header.component_infos@[0].size_info.precision,
    {
        // Note that this only works if all components have the same precision.
        self.header.component_infos[0].size_info.precision
    }
}

/// The color space of the image.
#[derive(Debug, Clone)]
pub enum ColorSpace {
    /// A grayscale image.
    Gray,
    /// An RGB image.
    RGB,
    /// A CMYK image.
    CMYK,
    /// An unknown color space.
    Unknown {
        /// The number of channels of the color space.
        num_channels: u8,
    },
    /// An image based on an ICC profile.
    Icc {
        /// The raw data of the ICC profile.
        profile: Vec<u8>,
        /// The number of channels used by the ICC profile.
        num_channels: u8,
    },
}

impl ColorSpace {
    /// The number of channels of the color space.
    pub open spec fn spec_num_channels(&self) -> u8 {
        match self {
            ColorSpace::Gray => 1,
            ColorSpace::RGB => 3,
            ColorSpace::CMYK => 4,
            ColorSpace::Unknown { num_channels } => *num_channels,
            ColorSpace::Icc { num_channels, .. } => *num_channels,
        }
    }

    /// Return the number of expected channels for the color space.
    pub fn num_channels(&self) -> (r: u8)
        ensures
            r == self.spec_num_channels(),
    {
        match self {
            Self::Gray => 1,
            Self::RGB => 3,
            Self::CMYK => 4,
            Self::Unknown { num_channels } => *num_channels,
            Self::Icc { num_channels, .. } => *num_channels,
        }
    }
}

/// The color space given by the color specification box (or the number of
/// components when there is none), as `get_color_space` determines it; an
/// ICC based color space is given by its number of channels and whether it
/// comes with the profile of the box.
pub open spec fn color_space_matches(cs: &ColorSpace, boxes: &ImageBoxes, num_components: usize) -> bool {
    match boxes.color_specification {
        Some(spec) => match spec.color_space {
            jp2::colr::ColorSpace::Enumerated(e) => match e {
                EnumeratedColorspace::Cmyk => *cs == ColorSpace::CMYK,
                EnumeratedColorspace::Srgb | EnumeratedColorspace::EsRgb | EnumeratedColorspace::Sycc => *cs
                    == ColorSpace::RGB,
                EnumeratedColorspace::Greyscale => *cs == ColorSpace::Gray,
                EnumeratedColorspace::RommRgb | EnumeratedColorspace::CieLab(_) => cs matches ColorSpace::Icc {
                    num_channels,
                    ..
                } && num_channels == 3,
                _ => false,
            },
            jp2::colr::ColorSpace::Icc(icc) => match icc_metadata_spec(icc@) {
                Some(m) => cs matches ColorSpace::Icc { profile, num_channels } && profile@ == icc@
                    && num_channels == icc_components_spec(m),
                None => *cs == ColorSpace::RGB,
            },
            jp2::colr::ColorSpace::Unknown => unknown_color_space(cs, num_components),
        },
        None => unknown_color_space(cs, num_components),
    }
}

/// The color space assumed from the number of components alone.
pub open spec fn unknown_color_space(cs: &ColorSpace, num_components: usize) -> bool {
    if num_components == 1 {
        *cs == ColorSpace::Gray
    } else if num_components == 3 {
        *cs == ColorSpace::RGB
    } else if num_components == 4 {
        *cs == ColorSpace::CMYK
    } else {
        *cs == (ColorSpace::Unknown { num_channels: num_components as u8 })
    }
}

/// The enumerated color spaces without a color space of their own.
pub open spec fn unsupported_enumerated(boxes: &ImageBoxes) -> bool {
    boxes.color_specification matches Some(spec) && spec.color_space matches jp2::colr::ColorSpace::Enumerated(e)
        && !(e is Cmyk || e is Srgb || e is EsRgb || e is Sycc || e is Greyscale || e is RommRgb || e is CieLab)
}

/// The color space from the color specification box. The built-in ICC
/// profiles of the ROMM-RGB and CIELab color spaces are not part of this
/// library: their profile is left empty.
pub fn get_color_space(boxes: &ImageBoxes, num_components: usize) -> (r: Result<ColorSpace>)
    ensures
        unsupported_enumerated(boxes) ==> r == Err::<ColorSpace, DecodeError>(DecodeError::Format(FormatError::Unsupported)),
        !unsupported_enumerated(boxes) ==> (r matches Ok(cs) && color_space_matches(&cs, boxes, num_components)),
{
    let cs = match &boxes.color_specification {
        Some(spec) => match &spec.color_space {
            jp2::colr::ColorSpace::Enumerated(e) => match e {
                EnumeratedColorspace::Cmyk => ColorSpace::CMYK,
                EnumeratedColorspace::Srgb => ColorSpace::RGB,
                EnumeratedColorspace::RommRgb => {
                    // Use an ICC profile to process the RommRGB color space.
                    ColorSpace::Icc { profile: Vec::new(), num_channels: 3 }
                },
                EnumeratedColorspace::EsRgb => ColorSpace::RGB,
                EnumeratedColorspace::Greyscale => ColorSpace::Gray,
                EnumeratedColorspace::Sycc => ColorSpace::RGB,
                EnumeratedColorspace::CieLab(_) => ColorSpace::Icc { profile: Vec::new(), num_channels: 3 },
                _ => return Err(DecodeError::Format(FormatError::Unsupported)),
            },
            jp2::colr::ColorSpace::Icc(icc) => {
                match ICCMetadata::from_data(icc.as_slice()) {
                    Some(metadata) => ColorSpace::Icc {
                        profile: vstd::slice::slice_to_vec(icc.as_slice()),
                        num_channels: metadata.color_space.num_components(),
                    },
                    // See OPENJPEG test orb-blue10-lin-jp2.jp2. They seem to
                    // assume RGB in this case (even though the image has 4
                    // components with no opacity channel, they assume RGBA instead
                    // of CMYK).
                    None => ColorSpace::RGB,
                }
            },
            jp2::colr::ColorSpace::Unknown => color_space_from_count(num_components),
        },
        None => color_space_from_count(num_components),
    };
    Ok(cs)
}

/// The color space assumed for `num_components` components.
fn color_space_from_count(num_components: usize) -> (r: ColorSpace)
    ensures
        unknown_color_space(&r, num_components),
{
    if num_components == 1 {
        ColorSpace::Gray
    } else if num_components == 3 {
        ColorSpace::RGB
    } else if num_components == 4 {
        ColorSpace::CMYK
    } else {
        ColorSpace::Unknown { num_channels: num_components as u8 }
    }
}

/// Whether the last channel definition marks an opacity channel.
pub open spec fn alpha_from_boxes(boxes: &ImageBoxes) -> bool {
    boxes.channel_definition matches Some(c) && c.channel_definitions@.last().channel_type == ChannelType::Opacity
}

/// The number of components the color space is chosen for: the palette
/// columns when palette indices are resolved, else the codestream
/// components.
pub open spec fn components_for_color_space(boxes: &ImageBoxes, header: &Header, settings: &DecodeSettings) -> usize {
    if settings.resolve_palette_indices && boxes.palette is Some {
        boxes.palette->0.columns@.len() as usize
    } else {
        header.component_infos@.len() as usize
    }
}

/// The result of `repair_color_space`.
pub open spec fn repair_spec(
    cs: ColorSpace,
    has_alpha: bool,
    has_palette: bool,
    settings: &DecodeSettings,
    actual: int,
) -> Option<(ColorSpace, bool)> {
    let (cs1, a1) = if !settings.resolve_palette_indices && has_palette {
        (ColorSpace::Gray, false)
    } else {
        (cs, has_alpha)
    };
    let n = cs1.spec_num_channels() as int;
    if has_palette || actual == n + (if a1 { 1int } else { 0int }) {
        Some((cs1, a1))
    } else if !settings.strict && actual == n + 1 && !a1 {
        Some((cs1, true))
    } else if actual == 1 {
        Some((ColorSpace::Gray, false))
    } else if actual == 2 && a1 {
        Some((ColorSpace::Gray, true))
    } else if actual == 3 {
        Some((ColorSpace::RGB, false))
    } else if actual == 4 {
        Some((if a1 { ColorSpace::RGB } else { ColorSpace::CMYK }, a1))
    } else {
        None
    }
}

/// Adjust a color space and alpha flag to the settings and the actual
/// number of components: without resolving palette indices a palette image
/// is gray, and a color space whose number of channels does not fit the
/// components is repaired where possible.
pub fn repair_color_space(
    cs: ColorSpace,
    has_alpha: bool,
    has_palette: bool,
    settings: &DecodeSettings,
    actual_num_components: usize,
) -> (r: Result<(ColorSpace, bool)>)
    ensures
        match repair_spec(cs, has_alpha, has_palette, settings, actual_num_components as int) {
            Some(v) => r == Ok::<(ColorSpace, bool), DecodeError>(v),
            None => r == Err::<(ColorSpace, bool), DecodeError>(DecodeError::Validation(ValidationError::TooManyChannels)),
        },
{
    let mut color_space = cs;
    let mut has_alpha = has_alpha;

    // If we didn't resolve palette indices, we need to assume grayscale image.
    if !settings.resolve_palette_indices && has_palette {
        has_alpha = false;
        color_space = ColorSpace::Gray;
    }

    let n = color_space.num_channels() as usize;
    let expected = n + if has_alpha { 1 } else { 0 };

    // Validate the number of channels.
    if !has_palette && actual_num_components != expected {
        if !settings.strict && actual_num_components == n + 1 && !has_alpha {
            // See OPENJPEG test case orb-blue10-lin-j2k. Assume that we have an
            // alpha channel in this case.
            has_alpha = true;
        } else {
            // Color space is invalid, attempt to repair. The components
            // fill the color channels and then the alpha channel: where they
            // cannot hold the alpha channel, there is none.
            if actual_num_components == 1 {
                color_space = ColorSpace::Gray;
                has_alpha = false;
            } else if actual_num_components == 2 && has_alpha {
                color_space = ColorSpace::Gray;
            } else if actual_num_components == 3 {
                color_space = ColorSpace::RGB;
                has_alpha = false;
            } else if actual_num_components == 4 {
                if has_alpha {
                    color_space = ColorSpace::RGB;
                } else {
                    color_space = ColorSpace::CMYK;
                }
            } else {
                return Err(DecodeError::Validation(ValidationError::TooManyChannels));
            }
        }
    }

    Ok((color_space, has_alpha))
}

/// Determine the color space and whether there is an alpha channel, and
/// repair color spaces whose number of channels does not fit the number of
/// components.
pub fn resolve_alpha_and_color_space(
    boxes: &ImageBoxes,
    header: &Header<'_>,
    settings: &DecodeSettings,
) -> (r: Result<(ColorSpace, bool)>)
    requires
        boxes.wf(),
    ensures
        unsupported_enumerated(boxes) ==> r == Err::<(ColorSpace, bool), DecodeError>(DecodeError::Format(FormatError::Unsupported)),
        !unsupported_enumerated(boxes) ==> exists|cs: ColorSpace|
            #[trigger] color_space_matches(&cs, boxes, components_for_color_space(boxes, header, settings)) && match repair_spec(
                cs,
                alpha_from_boxes(boxes),
                boxes.palette is Some,
                settings,
                header.component_infos@.len() as int,
            ) {
                Some(v) => r == Ok::<(ColorSpace, bool), DecodeError>(v),
                None => r == Err::<(ColorSpace, bool), DecodeError>(DecodeError::Validation(ValidationError::TooManyChannels)),
            },
        boxes.palette is None ==> (r matches Ok((cs, alpha)) ==> header.component_infos@.len() == cs.spec_num_channels() + (
        if alpha {
            1int
        } else {
            0int
        })),
{
    let mut num_components = header.component_infos.len();

    // Override number of components with what is actually in the palette box
    // in case we resolve them.
    if settings.resolve_palette_indices {
        match &boxes.palette {
            Some(palette_box) => num_components = palette_box.columns.len(),
            None => {},
        }
    }

    let has_alpha = match &boxes.channel_definition {
        Some(cdef) => {
            let last = cdef.channel_definitions[cdef.channel_definitions.len() - 1];
            last.channel_type == ChannelType::Opacity
        },
        None => false,
    };

    let color_space = match get_color_space(boxes, num_components) {
        Ok(c) => c,
        Err(e) => return Err(e),
    };
    let ghost cs0 = color_space;
    let r = repair_color_space(
        color_space,
        has_alpha,
        boxes.palette.is_some(),
        settings,
        header.component_infos.len(),
    );
    proof {
        assert(color_space_matches(&cs0, boxes, components_for_color_space(boxes, header, settings)));
    }
    r
}

} // verus!
