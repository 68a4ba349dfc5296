//! The color specification box (colr), defined in I.5.3.3.
use crate::byte_reader::Reader;
use crate::error::{DecodeError, FormatError, Result};
use crate::jp2::ImageBoxes;
use crate::reader::be_value;
use vstd::prelude::*;

verus! {

/// The contents of a colour specification box.
pub struct ColorSpecificationBox {
    pub color_space: ColorSpace,
}

/// How a colour specification box gives the colour space.
pub enum ColorSpace {
    Enumerated(EnumeratedColorspace),
    Icc(Vec<u8>),
    Unknown,
}

/// The enumerated colour spaces (Table I.10 and M.25).
#[derive(Debug, Clone, Copy, PartialEq, Eq)]
pub enum EnumeratedColorspace {
    BiLevel1,
    YCbCr1,
    YCbCr2,
    YCbCr3,
    PhotoYcc,
    Cmy,
    Cmyk,
    Ycck,
    CieLab(CieLab),
    BiLevel2,
    Srgb,
    Greyscale,
    Sycc,
    CieJab,
    EsRgb,
    RommRgb,
    YPbPr112560,
    YPbPr125050,
    EsYcc,
    ScRgb,
    ScRgbGray,
}

/// The parameters of the CIELab colour space (M.11.7.4.1).
#[derive(Debug, Clone, Copy, PartialEq, Eq)]
pub struct CieLab {
    pub rl: Option<u32>,
    pub ol: Option<u32>,
    pub ra: Option<u32>,
    pub oa: Option<u32>,
    pub rb: Option<u32>,
    pub ob: Option<u32>,
}

/// The big-endian `u32` at byte offset `q`, if there are four bytes.
pub open spec fn opt_u32_at(b: Seq<u8>, q: int) -> Option<u32> {
    if q + 4 <= b.len() {
        Some(be_value(b.subrange(q, q + 4)) as u32)
    } else {
        None
    }
}

/// The enumerated colour space with code `value`, whose parameters (for
/// CIELab) start at byte offset `p`.
pub open spec fn enumerated_spec(value: u32, b: Seq<u8>, p: int) -> Option<EnumeratedColorspace> {
    if value == 0 { Some(EnumeratedColorspace::BiLevel1) }
    else if value == 1 { Some(EnumeratedColorspace::YCbCr1) }
    else if value == 3 { Some(EnumeratedColorspace::YCbCr2) }
    else if value == 4 { Some(EnumeratedColorspace::YCbCr3) }
    else if value == 9 { Some(EnumeratedColorspace::PhotoYcc) }
    else if value == 11 { Some(EnumeratedColorspace::Cmy) }
    else if value == 12 { Some(EnumeratedColorspace::Cmyk) }
    else if value == 13 { Some(EnumeratedColorspace::Ycck) }
    else if value == 14 {
        Some(EnumeratedColorspace::CieLab(CieLab {
            rl: opt_u32_at(b, p),
            ol: opt_u32_at(b, p + 4),
            ra: opt_u32_at(b, p + 8),
            oa: opt_u32_at(b, p + 12),
            rb: opt_u32_at(b, p + 16),
            ob: opt_u32_at(b, p + 20),
        }))
    }
    else if value == 15 { Some(EnumeratedColorspace::BiLevel2) }
    else if value == 16 { Some(EnumeratedColorspace::Srgb) }
    else if value == 17 { Some(EnumeratedColorspace::Greyscale) }
    else if value == 18 { Some(EnumeratedColorspace::Sycc) }
    else if value == 19 { Some(EnumeratedColorspace::CieJab) }
    else if value == 20 { Some(EnumeratedColorspace::EsRgb) }
    else if value == 21 { Some(EnumeratedColorspace::RommRgb) }
    else if value == 22 { Some(EnumeratedColorspace::YPbPr112560) }
    else if value == 23 { Some(EnumeratedColorspace::YPbPr125050) }
    else if value == 24 { Some(EnumeratedColorspace::EsYcc) }
    else if value == 25 { Some(EnumeratedColorspace::ScRgb) }
    else if value == 26 { Some(EnumeratedColorspace::ScRgbGray) }
    else { None }
}

/// Read an optional `u32`: `None` once the data runs out.
fn read_opt_u32(reader: &mut Reader<'_>) -> (r: Option<u32>)
    requires
        old(reader).wf(),
    ensures
        final(reader).wf(),
        final(reader).bytes() == old(reader).bytes(),
        r == opt_u32_at(old(reader).bytes(), old(reader).pos()),
        r is Some ==> final(reader).pos() == old(reader).pos() + 4,
        r is None ==> final(reader).pos() == old(reader).pos(),
{
    reader.read_u32()
}

impl EnumeratedColorspace {
    pub fn from_raw(value: u32, reader: &mut Reader<'_>) -> (r: Option<Self>)
        requires
            old(reader).wf(),
        ensures
            final(reader).wf(),
            final(reader).bytes() == old(reader).bytes(),
            r == enumerated_spec(value, old(reader).bytes(), old(reader).pos()),
    {
        if value == 0 { Some(Self::BiLevel1) }
        else if value == 1 { Some(Self::YCbCr1) }
        else if value == 3 { Some(Self::YCbCr2) }
        else if value == 4 { Some(Self::YCbCr3) }
        else if value == 9 { Some(Self::PhotoYcc) }
        else if value == 11 { Some(Self::Cmy) }
        else if value == 12 { Some(Self::Cmyk) }
        else if value == 13 { Some(Self::Ycck) }
        else if value == 14 {
            // M.11.7.4.1 EP field format for the CIELab colourspace
            let rl = read_opt_u32(reader);
            let ol = read_opt_u32(reader);
            let ra = read_opt_u32(reader);
            let oa = read_opt_u32(reader);
            let rb = read_opt_u32(reader);
            let ob = read_opt_u32(reader);
            // Not supported for now.
            let _il = read_opt_u32(reader);
            Some(Self::CieLab(CieLab { rl, ol, ra, oa, rb, ob }))
        }
        else if value == 15 { Some(Self::BiLevel2) }
        else if value == 16 { Some(Self::Srgb) }
        else if value == 17 { Some(Self::Greyscale) }
        else if value == 18 { Some(Self::Sycc) }
        else if value == 19 { Some(Self::CieJab) }
        else if value == 20 { Some(Self::EsRgb) }
        else if value == 21 { Some(Self::RommRgb) }
        else if value == 22 { Some(Self::YPbPr112560) }
        else if value == 23 { Some(Self::YPbPr125050) }
        else if value == 24 { Some(Self::EsYcc) }
        else if value == 25 { Some(Self::ScRgb) }
        else if value == 26 { Some(Self::ScRgbGray) }
        else { None }
    }
}

/// What a colour specification box in `data` holds: `None` for a box that
/// cannot be read, else its colour space, with the ICC profile given by its
/// bytes.
pub open spec fn colr_spec(data: Seq<u8>) -> Option<(u8, Option<EnumeratedColorspace>, Seq<u8>)> {
    if data.len() < 3 {
        None
    } else if data[0] == 1 {
        if data.len() < 7 {
            None
        } else {
            match enumerated_spec(be_value(data.subrange(3, 7)) as u32, data, 7) {
                Some(e) => Some((1u8, Some(e), Seq::empty())),
                None => None,
            }
        }
    } else if data[0] == 2 {
        Some((2u8, None, data.subrange(3, data.len() as int)))
    } else {
        Some((0u8, None, Seq::empty()))
    }
}

/// The colour space matches what `colr_spec` says of `data`.
pub open spec fn colr_matches(cs: &ColorSpace, data: Seq<u8>) -> bool {
    match colr_spec(data) {
        Some((1, Some(e), _)) => cs matches ColorSpace::Enumerated(x) && x == e,
        Some((2, _, profile)) => cs matches ColorSpace::Icc(v) && v@ == profile,
        Some(_) => cs is Unknown,
        None => false,
    }
}

/// Read a colour specification box. Only the first one counts: later ones
/// leave the boxes unchanged.
pub fn parse(boxes: &mut ImageBoxes, data: &[u8]) -> (r: Result<()>)
    ensures
        old(boxes).color_specification is Some ==> r is Ok && *final(boxes) == *old(boxes),
        old(boxes).color_specification is None ==> {
            &&& colr_spec(data@) is None ==> r == Err::<(), DecodeError>(DecodeError::Format(FormatError::InvalidBox))
            &&& colr_spec(data@) is Some ==> r is Ok && (final(boxes).color_specification matches Some(c)
                && colr_matches(&c.color_space, data@))
        },
        final(boxes).channel_definition == old(boxes).channel_definition,
        final(boxes).palette == old(boxes).palette,
        final(boxes).component_mapping == old(boxes).component_mapping,
        r is Err ==> *final(boxes) == *old(boxes),
{
    if boxes.color_specification.is_some() {
        // "A JP2 file may contain multiple Colour Specification boxes, but
        // must contain at least one, specifying different methods
        // for achieving "equivalent" results. A conforming JP2 reader shall
        // ignore all Colour Specification boxes after the first.
        // However, readers conforming to other standards may use those boxes as
        // defined in those other standards."
        return Ok(());
    }

    let mut reader = Reader::new(data);
    let meth = match reader.read_byte() {
        Some(v) => v,
        None => return Err(DecodeError::Format(FormatError::InvalidBox)),
    };
    // We don't care about those.
    let _prec = match reader.read_byte() {
        Some(v) => v,
        None => return Err(DecodeError::Format(FormatError::InvalidBox)),
    };
    let _approx = match reader.read_byte() {
        Some(v) => v,
        None => return Err(DecodeError::Format(FormatError::InvalidBox)),
    };

    let method = if meth == 1 {
        let enumerated = match reader.read_u32() {
            Some(v) => v,
            None => return Err(DecodeError::Format(FormatError::InvalidBox)),
        };
        match EnumeratedColorspace::from_raw(enumerated, &mut reader) {
            Some(e) => ColorSpace::Enumerated(e),
            None => return Err(DecodeError::Format(FormatError::InvalidBox)),
        }
    } else if meth == 2 {
        let profile = match reader.tail() {
            Some(t) => vstd::slice::slice_to_vec(t),
            None => return Err(DecodeError::Format(FormatError::InvalidBox)),
        };
        ColorSpace::Icc(profile)
    } else {
        ColorSpace::Unknown
    };

    boxes.color_specification = Some(ColorSpecificationBox { color_space: method });
    Ok(())
}

} // verus!
