//! Reading the colour space of an ICC profile.
use crate::reader::be_value;
use vstd::prelude::*;

verus! {

/// The data colour spaces of an ICC profile that are recognised.
#[derive(Clone, Copy, Debug, PartialEq, Eq, Structural)]
pub enum ICCColorSpace {
    Xyz,
    Lab,
    Luv,
    Ycbr,
    Yxy,
    Lms,
    Rgb,
    Gray,
    Hsv,
    Hls,
    Cmyk,
    Cmy,
    OneClr,
    ThreeClr,
    FourClr,
    // There are more, but those should be the most important
    // ones.
}

/// The colour space with signature `value`, if it is recognised.
pub open spec fn icc_color_space_spec(value: u32) -> Option<ICCColorSpace> {
    if value == 0x58595A20 { Some(ICCColorSpace::Xyz) }
    else if value == 0x4C616220 { Some(ICCColorSpace::Lab) }
    else if value == 0x4C757620 { Some(ICCColorSpace::Luv) }
    else if value == 0x59436272 { Some(ICCColorSpace::Ycbr) }
    else if value == 0x59787920 { Some(ICCColorSpace::Yxy) }
    else if value == 0x4C4D5320 { Some(ICCColorSpace::Lms) }
    else if value == 0x52474220 { Some(ICCColorSpace::Rgb) }
    else if value == 0x47524159 { Some(ICCColorSpace::Gray) }
    else if value == 0x48535620 { Some(ICCColorSpace::Hsv) }
    else if value == 0x484C5320 { Some(ICCColorSpace::Hls) }
    else if value == 0x434D594B { Some(ICCColorSpace::Cmyk) }
    else if value == 0x434D5920 { Some(ICCColorSpace::Cmy) }
    else if value == 0x31434C52 { Some(ICCColorSpace::OneClr) }
    else if value == 0x33434C52 { Some(ICCColorSpace::ThreeClr) }
    else if value == 0x34434C52 { Some(ICCColorSpace::FourClr) }
    else { None }
}

/// The number of components of a colour space.
pub open spec fn icc_components_spec(cs: ICCColorSpace) -> u8 {
    match cs {
        ICCColorSpace::Gray | ICCColorSpace::OneClr => 1,
        ICCColorSpace::Cmyk | ICCColorSpace::FourClr => 4,
        _ => 3,
    }
}

impl ICCColorSpace {
    pub fn num_components(&self) -> (r: u8)
        ensures
            r == icc_components_spec(*self),
    {
        match self {
            Self::Xyz => 3,
            Self::Lab => 3,
            Self::Luv => 3,
            Self::Ycbr => 3,
            Self::Yxy => 3,
            Self::Lms => 3,
            Self::Rgb => 3,
            Self::Gray => 1,
            Self::Hsv => 3,
            Self::Hls => 3,
            Self::Cmyk => 4,
            Self::Cmy => 3,
            Self::OneClr => 1,
            Self::ThreeClr => 3,
            Self::FourClr => 4,
        }
    }

    /// The colour space with the signature `value`.
    pub fn from_u32(value: u32) -> (r: Option<Self>)
        ensures
            r == icc_color_space_spec(value),
    {
        if value == 0x58595A20 { Some(Self::Xyz) }
        else if value == 0x4C616220 { Some(Self::Lab) }
        else if value == 0x4C757620 { Some(Self::Luv) }
        else if value == 0x59436272 { Some(Self::Ycbr) }
        else if value == 0x59787920 { Some(Self::Yxy) }
        else if value == 0x4C4D5320 { Some(Self::Lms) }
        else if value == 0x52474220 { Some(Self::Rgb) }
        else if value == 0x47524159 { Some(Self::Gray) }
        else if value == 0x48535620 { Some(Self::Hsv) }
        else if value == 0x484C5320 { Some(Self::Hls) }
        else if value == 0x434D594B { Some(Self::Cmyk) }
        else if value == 0x434D5920 { Some(Self::Cmy) }
        else if value == 0x31434C52 { Some(Self::OneClr) }
        else if value == 0x33434C52 { Some(Self::ThreeClr) }
        else if value == 0x34434C52 { Some(Self::FourClr) }
        else { None }
    }
}

/// What is read from an ICC profile.
#[derive(Clone, Copy, Debug, PartialEq, Eq, Structural)]
pub struct ICCMetadata {
    pub color_space: ICCColorSpace,
}

/// The colour space of the profile `data`: the signature in bytes 16 to 20
/// of the profile header.
pub open spec fn icc_metadata_spec(data: Seq<u8>) -> Option<ICCColorSpace> {
    if data.len() < 20 {
        None
    } else {
        icc_color_space_spec(be_value(data.subrange(16, 20)) as u32)
    }
}

impl ICCMetadata {
    pub fn from_data(data: &[u8]) -> (r: Option<Self>)
        ensures
            r matches Some(m) ==> icc_metadata_spec(data@) == Some(m.color_space),
            r is None ==> icc_metadata_spec(data@) is None,
    {
        if data.len() < 20 {
            return None;
        }
        let bytes = vstd::slice::slice_subrange(data, 16, 20);
        let marker = crate::reader::be_bytes_u64(bytes);
        proof {
            crate::reader::lemma_be_value_bound(bytes@);
            reveal_with_fuel(crate::reader::pow256, 5);
        }
        match ICCColorSpace::from_u32(marker as u32) {
            Some(color_space) => Some(Self { color_space }),
            None => None,
        }
    }
}

/// The four bytes of an ICC colour space signature.
pub open spec fn signature_at(data: Seq<u8>, sig: Seq<u8>) -> bool {
    data.len() >= 20 && sig.len() == 4 && data.subrange(16, 20) == sig
}

/// The number of components that an ICC profile describes follows its
/// colour space signature (bytes 16 to 20 of the header): one for a gray
/// or one-colour profile, four for a CMYK or four-colour profile, three
/// for an RGB or three-colour profile.
pub proof fn lemma_icc_components_of_signature(data: Seq<u8>)
    ensures
        signature_at(data, seq![0x47u8, 0x52, 0x41, 0x59]) ==> (icc_metadata_spec(data) matches Some(cs)
            && icc_components_spec(cs) == 1),
        signature_at(data, seq![0x31u8, 0x43, 0x4C, 0x52]) ==> (icc_metadata_spec(data) matches Some(cs)
            && icc_components_spec(cs) == 1),
        signature_at(data, seq![0x43u8, 0x4D, 0x59, 0x4B]) ==> (icc_metadata_spec(data) matches Some(cs)
            && icc_components_spec(cs) == 4),
        signature_at(data, seq![0x34u8, 0x43, 0x4C, 0x52]) ==> (icc_metadata_spec(data) matches Some(cs)
            && icc_components_spec(cs) == 4),
        signature_at(data, seq![0x52u8, 0x47, 0x42, 0x20]) ==> (icc_metadata_spec(data) matches Some(cs)
            && icc_components_spec(cs) == 3),
        signature_at(data, seq![0x33u8, 0x43, 0x4C, 0x52]) ==> (icc_metadata_spec(data) matches Some(cs)
            && icc_components_spec(cs) == 3),
{
    if data.len() >= 20 {
        let s = data.subrange(16, 20);
        reveal_with_fuel(be_value, 5);
        assert(s.drop_last().drop_last().drop_last().drop_last() =~= Seq::<u8>::empty());
        assert(be_value(s) == ((s[0] as nat * 256 + s[1]) * 256 + s[2]) * 256 + s[3]) by {
            assert(s.drop_last().drop_last().drop_last() =~= seq![s[0]]);
            assert(s.drop_last().drop_last() =~= seq![s[0], s[1]]);
            assert(s.drop_last() =~= seq![s[0], s[1], s[2]]);
        }
    }
}

} // verus!
