//! The image description that an image-decoding front end needs: the color
//! type of the decoded 8-bit output and that of the original samples.
use crate::error::{DecodeError, FormatError, Result};
use crate::error::ValidationError;
use crate::{codestream_magic, default_settings, image_read, jp2_magic, repair_spec, starts_with, DecodeSettings, Image};
use vstd::prelude::*;

verus! {

/// The layout of the decoded pixels, 8 bits per channel.
#[derive(Debug, Clone, Copy, PartialEq, Eq, Structural)]
pub enum ColorType {
    L8,
    La8,
    Rgb8,
    Rgba8,
}

/// The layout and bit depth of the original samples.
#[derive(Debug, Clone, Copy, PartialEq, Eq, Structural)]
pub enum ExtendedColorType {
    L1,
    La1,
    L2,
    La2,
    L4,
    La4,
    L8,
    La8,
    Rgb1,
    Rgba1,
    Rgb2,
    Rgba2,
    Rgb4,
    Rgba4,
    Rgb8,
    Rgba8,
    Cmyk8,
    Cmyk16,
    /// A layout without a name, given by its number of bits per pixel.
    Unknown(u8),
}

/// The color type of the decoded output for a number of channels, with or
/// without alpha. CMYK is converted to RGB.
pub open spec fn color_type_spec(channels: u8, has_alpha: bool) -> ColorType {
    if channels == 1 {
        if has_alpha { ColorType::La8 } else { ColorType::L8 }
    } else if (channels == 3 || channels == 4) && has_alpha {
        ColorType::Rgba8
    } else {
        ColorType::Rgb8
    }
}

/// The number of bits of one pixel of the original samples, counted in a
/// byte: the count wraps at 256.
pub open spec fn orig_bits_per_pixel_spec(channels: u8, has_alpha: bool, depth: u8) -> u8 {
    let c = if has_alpha { ((channels + 1) % 256) as u8 } else { channels };
    ((c * depth) % 256) as u8
}

/// The original color type for a number of channels, bit depth and alpha.
/// A depth of 16 is reported as 8 for gray and RGB.
pub open spec fn original_color_type_spec(channels: u8, depth: u8, has_alpha: bool) -> ExtendedColorType {
    if channels == 1 && depth == 1 {
        if has_alpha { ExtendedColorType::La1 } else { ExtendedColorType::L1 }
    } else if channels == 1 && depth == 2 {
        if has_alpha { ExtendedColorType::La2 } else { ExtendedColorType::L2 }
    } else if channels == 1 && depth == 4 {
        if has_alpha { ExtendedColorType::La4 } else { ExtendedColorType::L4 }
    } else if channels == 1 && (depth == 8 || depth == 16) {
        if has_alpha { ExtendedColorType::La8 } else { ExtendedColorType::L8 }
    } else if channels == 3 && depth == 1 {
        if has_alpha { ExtendedColorType::Rgba1 } else { ExtendedColorType::Rgb1 }
    } else if channels == 3 && depth == 2 {
        if has_alpha { ExtendedColorType::Rgba2 } else { ExtendedColorType::Rgb2 }
    } else if channels == 3 && depth == 4 {
        if has_alpha { ExtendedColorType::Rgba4 } else { ExtendedColorType::Rgb4 }
    } else if channels == 3 && (depth == 8 || depth == 16) {
        if has_alpha { ExtendedColorType::Rgba8 } else { ExtendedColorType::Rgb8 }
    } else if channels == 4 && depth == 8 && !has_alpha {
        ExtendedColorType::Cmyk8
    } else if channels == 4 && depth == 16 && !has_alpha {
        ExtendedColorType::Cmyk16
    } else {
        ExtendedColorType::Unknown(orig_bits_per_pixel_spec(channels, has_alpha, depth))
    }
}

/// The number of bits of one pixel of the original samples.
fn orig_bits_per_pixel(img: &Image<'_>) -> (r: u8)
    requires
        img.wf(),
    ensures
        r == orig_bits_per_pixel_spec(
            img.color_space.spec_num_channels(),
            img.has_alpha,
            img.header.component_infos@[0].size_info.precision,
        ),
{
    let mut channel_count = img.color_space().num_channels();
    if img.has_alpha {
        channel_count = channel_count.wrapping_add(1);
    }
    channel_count.wrapping_mul(img.original_bit_depth())
}

impl<'a> Image<'a> {
    /// The color type of the decoded output.
    pub fn color_type(&self) -> (r: ColorType)
        ensures
            r == color_type_spec(self.color_space.spec_num_channels(), self.has_alpha),
    {
        let channel_count = self.color_space.num_channels();
        let has_alpha = self.has_alpha;
        if channel_count == 1 {
            if has_alpha { ColorType::La8 } else { ColorType::L8 }
        } else if (channel_count == 3 || channel_count == 4) && has_alpha {
            ColorType::Rgba8
        } else {
            // CMYK is converted to RGB, and we have to return something
            // for the other counts.
            ColorType::Rgb8
        }
    }

    /// The color type of the original samples.
    pub fn original_color_type(&self) -> (r: ExtendedColorType)
        requires
            self.wf(),
        ensures
            r == original_color_type_spec(
                self.color_space.spec_num_channels(),
                self.header.component_infos@[0].size_info.precision,
                self.has_alpha,
            ),
    {
        let channel_count = self.color_space.num_channels();
        let has_alpha = self.has_alpha;
        let depth = self.original_bit_depth();
        if channel_count == 1 && depth == 1 {
            if has_alpha { ExtendedColorType::La1 } else { ExtendedColorType::L1 }
        } else if channel_count == 1 && depth == 2 {
            if has_alpha { ExtendedColorType::La2 } else { ExtendedColorType::L2 }
        } else if channel_count == 1 && depth == 4 {
            if has_alpha { ExtendedColorType::La4 } else { ExtendedColorType::L4 }
        } else if channel_count == 1 && (depth == 8 || depth == 16) {
            if has_alpha { ExtendedColorType::La8 } else { ExtendedColorType::L8 }
        } else if channel_count == 3 && depth == 1 {
            if has_alpha { ExtendedColorType::Rgba1 } else { ExtendedColorType::Rgb1 }
        } else if channel_count == 3 && depth == 2 {
            if has_alpha { ExtendedColorType::Rgba2 } else { ExtendedColorType::Rgb2 }
        } else if channel_count == 3 && depth == 4 {
            if has_alpha { ExtendedColorType::Rgba4 } else { ExtendedColorType::Rgb4 }
        } else if channel_count == 3 && (depth == 8 || depth == 16) {
            if has_alpha { ExtendedColorType::Rgba8 } else { ExtendedColorType::Rgb8 }
        } else if channel_count == 4 && depth == 8 && !has_alpha {
            ExtendedColorType::Cmyk8
        } else if channel_count == 4 && depth == 16 && !has_alpha {
            ExtendedColorType::Cmyk16
        } else {
            // CMYK with alpha is not representable.
            ExtendedColorType::Unknown(orig_bits_per_pixel(self))
        }
    }
}

/// A decoder that holds the whole input, with the description of the image
/// it holds.
pub struct Jp2Decoder {
    pub input: Vec<u8>,
    pub width: u32,
    pub height: u32,
    pub color_type: ColorType,
    pub orig_color_type: ExtendedColorType,
}

/// The decoder describes the image: its size, its color type and the color
/// type of its original samples.
pub open spec fn describes(d: &Jp2Decoder, img: &Image) -> bool {
    &&& d.width == img.header.size_data.spec_image_width()
    &&& d.height == img.header.size_data.spec_image_height()
    &&& d.color_type == color_type_spec(img.color_space.spec_num_channels(), img.has_alpha)
    &&& d.orig_color_type == original_color_type_spec(
        img.color_space.spec_num_channels(),
        img.header.component_infos@[0].size_info.precision,
        img.has_alpha,
    )
}

impl Jp2Decoder {
    /// A decoder for the given input, which must hold an image that
    /// `Image::new` accepts with the default settings; its description is
    /// that of that image.
    pub fn new(input: Vec<u8>) -> (r: Result<Self>)
        requires
            input@.len() * 8 <= usize::MAX,
        ensures
            r matches Ok(d) ==> d.input@ == input@,
            !starts_with(input@, jp2_magic()) && !starts_with(input@, codestream_magic()) ==> r == Err::<
                Self,
                DecodeError,
            >(DecodeError::Format(FormatError::InvalidSignature)),
            r matches Ok(d) ==> exists|img: Image| #[trigger] image_read(&img, input@, &default_settings()) && describes(&d, &img),
            starts_with(input@, jp2_magic()) && crate::jp2::no_image_boxes(input@) ==> r == Err::<Self, DecodeError>(
                DecodeError::Format(FormatError::InvalidBox),
            ),
            starts_with(input@, jp2_magic()) && (crate::jp2::jp2_preamble(input@) matches Some(q) && (crate::jp2::last_box(
                crate::jp2::top_boxes(input@, q).0,
                crate::boxes::JP2_HEADER,
            ) is None || crate::jp2::last_box(crate::jp2::top_boxes(input@, q).0, crate::boxes::CONTIGUOUS_CODESTREAM) is None))
                ==> r is Err,
            starts_with(input@, jp2_magic()) && crate::jp2::jp2_boxes_pass(input@, false) && crate::jp2::colr_unsupported_at(
                input@,
            ) ==> r == Err::<Self, DecodeError>(DecodeError::Format(FormatError::Unsupported)),
            starts_with(input@, jp2_magic()) && crate::jp2::jp2_boxes_pass(input@, false) && !crate::jp2::colr_unsupported_at(
                input@,
            ) ==> r is Ok || r == Err::<Self, DecodeError>(DecodeError::Validation(ValidationError::TooManyChannels)),
            starts_with(input@, jp2_magic()) && crate::jp2::jp2_boxes_pass(input@, false) && !crate::jp2::colr_unsupported_at(
                input@,
            ) && crate::jp2::colour_fits(input@, &default_settings()) ==> r is Ok,
            starts_with(input@, jp2_magic()) && crate::jp2::jp2_boxes_pass(input@, false) && r == Err::<Self, DecodeError>(
                DecodeError::Validation(ValidationError::TooManyChannels),
            ) ==> ({
                let n = crate::j2c::codestream::siz_csiz(
                    crate::jp2::last_top_data(input@, crate::boxes::CONTIGUOUS_CODESTREAM),
                    4,
                );
                exists|bx: crate::jp2::ImageBoxes, cs: crate::ColorSpace|
                    crate::jp2::jp2_boxes_read(&bx, input@) && crate::color_space_matches(
                        &cs,
                        &bx,
                        crate::jp2::components_for_boxes(&bx, n, &default_settings()) as usize,
                    ) && crate::jp2::colour_from_boxes(&bx, n, &default_settings(), cs) is None
            }),
            ({
                let n = crate::j2c::codestream::siz_csiz(input@, 4);
                starts_with(input@, codestream_magic()) && !starts_with(input@, jp2_magic()) && crate::j2c::raw_header_passes(
                    input@,
                ) ==> match repair_spec(crate::j2c::raw_color_space(n), false, false, &default_settings(), n) {
                    Some((cs, alpha)) => r matches Ok(d) && d.color_type == color_type_spec(cs.spec_num_channels(), alpha),
                    None => r == Err::<Self, DecodeError>(DecodeError::Validation(ValidationError::TooManyChannels)),
                }
            }),
    {
        let settings = DecodeSettings::default();
        proof {
            assert(settings == default_settings());
        }
        let (width, height, color_type, orig_color_type) = match Image::new(input.as_slice(), &settings) {
            Ok(headers) => {
                let v = (headers.width(), headers.height(), headers.color_type(), headers.original_color_type());
                proof {
                    assert(describes(&Jp2Decoder { input: input, width: v.0, height: v.1, color_type: v.2, orig_color_type: v.3 }, &headers));
                }
                v
            },
            Err(e) => return Err(e),
        };
        Ok(Jp2Decoder { input, width, height, color_type, orig_color_type })
    }
}

/// The color type carries an alpha channel.
pub open spec fn color_type_has_alpha(t: ColorType) -> bool {
    t is La8 || t is Rgba8
}

/// The number of color channels of a color type, alpha left out.
pub open spec fn color_type_colors(t: ColorType) -> int {
    match t {
        ColorType::L8 | ColorType::La8 => 1,
        ColorType::Rgb8 | ColorType::Rgba8 => 3,
    }
}

/// An image of one or three color channels keeps both its channels and
/// its alpha channel in its color type: gray stays gray, RGB stays RGB,
/// and an alpha channel is there exactly when the image has one.
pub proof fn lemma_color_type_keeps_alpha(channels: u8, has_alpha: bool)
    requires
        channels == 1 || channels == 3,
    ensures
        color_type_has_alpha(color_type_spec(channels, has_alpha)) == has_alpha,
        color_type_colors(color_type_spec(channels, has_alpha)) == channels,
{
}

/// A four-channel image is given as RGB, with alpha exactly when it has
/// one.
pub proof fn lemma_color_type_four_channels(has_alpha: bool)
    ensures
        color_type_has_alpha(color_type_spec(4, has_alpha)) == has_alpha,
        color_type_colors(color_type_spec(4, has_alpha)) == 3,
{
}

} // verus!
