//! Read and decode a JPEG2000 codestream, as described in Annex A.
use crate::error::{DecodeError, MarkerError, Result, TileError, ValidationError};
use crate::j2c::blocks::SubBandType;
use crate::math::{ceil_div, checked_ilog2, div_ceil, floor_log2, pow2_u32};
use crate::j2c::markers;
use crate::DecodeSettings;
use vstd::arithmetic::power2::pow2;
use crate::reader::{be_value, BitReader};
use vstd::prelude::*;

verus! {

/// The largest number of quality layers that is supported.
pub const MAX_LAYER_COUNT: u8 = 32;

/// The largest number of decomposition levels that is accepted.
pub const MAX_RESOLUTION_COUNT: u8 = 32;

/// The largest precinct exponent that is accepted.
pub const MAX_PRECINCT_EXPONENT: u8 = 31;

/// We only allow 31 bit planes because we need one bit for the sign.
pub const BITPLANE_BIT_SIZE: u32 = 31;

/// The big-endian `u16` at byte offset `i`.
pub open spec fn u16_at(b: Seq<u8>, i: int) -> int {
    be_value(b.subrange(i, i + 2)) as int
}

/// The big-endian `u32` at byte offset `i`.
pub open spec fn u32_at(b: Seq<u8>, i: int) -> int {
    be_value(b.subrange(i, i + 4)) as int
}

/// A reader at a byte boundary that has at least `n` more bytes.
pub open spec fn has_bytes(r: BitReader, n: int) -> bool {
    r.spec_byte_pos() + n <= r.bytes().len()
}

/// A reader that is well-formed and at a byte boundary.
pub open spec fn at_byte(r: BitReader) -> bool {
    r.wf() && r.spec_bit_pos() == 0
}

/// `new` is `old` moved forward by `n` bytes.
pub open spec fn advanced(old: BitReader, new: BitReader, n: int) -> bool {
    at_byte(new) && new.bytes() == old.bytes() && new.spec_byte_pos() == old.spec_byte_pos() + n
}

impl<'a> BitReader<'a> {
    /// Read a two-byte marker: 0xFF followed by the marker code.
    pub fn read_marker(&mut self) -> (r: Result<u8>)
        requires
            at_byte(*old(self)),
        ensures
            at_byte(*final(self)),
            final(self).bytes() == old(self).bytes(),
            ({
                let b = old(self).bytes();
                let p = old(self).spec_byte_pos();
                if has_bytes(*old(self), 2) && b[p] == 0xff {
                    r == Ok::<u8, DecodeError>(b[p + 1]) && advanced(*old(self), *final(self), 2)
                } else {
                    r == Err::<u8, DecodeError>(DecodeError::Marker(MarkerError::Invalid))
                }
            }),
    {
        let first = match self.peek_byte() {
            Some(b) => b,
            None => return Err(DecodeError::Marker(MarkerError::Invalid)),
        };
        if first != 0xFF {
            return Err(DecodeError::Marker(MarkerError::Invalid));
        }

        let _ = self.read_byte();
        match self.read_byte() {
            Some(b) => Ok(b),
            None => Err(DecodeError::Marker(MarkerError::Invalid)),
        }
    }

    /// The code of the marker at the current position, without moving.
    pub fn peek_marker(&mut self) -> (r: Option<u8>)
        requires
            at_byte(*old(self)),
        ensures
            *final(self) == *old(self),
            ({
                let b = old(self).bytes();
                let p = old(self).spec_byte_pos();
                if has_bytes(*old(self), 2) && b[p] == 0xff {
                    r == Some(b[p + 1])
                } else {
                    r is None
                }
            }),
    {
        let mut copy = *self;
        match copy.read_marker() {
            Ok(m) => Some(m),
            Err(_) => None,
        }
    }
}

/// Whether a marker code is one of the codes 0x30..=0x3F, which carry no
/// marker segment.
pub fn skip_code(marker_code: u8) -> (r: bool)
    ensures
        r == (0x30 <= marker_code <= 0x3F),
{
    // All markers with the marker code between 0xFF30 and 0xFF3F have no marker
    // segment parameters. They shall be skipped by the decoder.
    0x30 <= marker_code && marker_code <= 0x3F
}

/// Progression order (Table A.16).
#[derive(Debug, Clone, Copy, PartialEq, Eq, Structural)]
pub enum ProgressionOrder {
    LayerResolutionComponentPosition,
    ResolutionLayerComponentPosition,
    ResolutionPositionComponentLayer,
    PositionComponentResolutionLayer,
    ComponentPositionResolutionLayer,
}

/// The progression order with code `value`, if there is one.
pub open spec fn progression_order_spec(value: u8) -> Option<ProgressionOrder> {
    if value == 0 {
        Some(ProgressionOrder::LayerResolutionComponentPosition)
    } else if value == 1 {
        Some(ProgressionOrder::ResolutionLayerComponentPosition)
    } else if value == 2 {
        Some(ProgressionOrder::ResolutionPositionComponentLayer)
    } else if value == 3 {
        Some(ProgressionOrder::PositionComponentResolutionLayer)
    } else if value == 4 {
        Some(ProgressionOrder::ComponentPositionResolutionLayer)
    } else {
        None
    }
}

impl ProgressionOrder {
    pub fn from_u8(value: u8) -> (r: Result<Self>)
        ensures
            match progression_order_spec(value) {
                Some(p) => r == Ok::<Self, DecodeError>(p),
                None => r == Err::<Self, DecodeError>(
                    DecodeError::Validation(ValidationError::InvalidProgressionOrder),
                ),
            },
    {
        match value {
            0 => Ok(Self::LayerResolutionComponentPosition),
            1 => Ok(Self::ResolutionLayerComponentPosition),
            2 => Ok(Self::ResolutionPositionComponentLayer),
            3 => Ok(Self::PositionComponentResolutionLayer),
            4 => Ok(Self::ComponentPositionResolutionLayer),
            _ => Err(DecodeError::Validation(ValidationError::InvalidProgressionOrder)),
        }
    }
}

/// Wavelet transformation type (Table A.20).
#[derive(Debug, Clone, Copy, PartialEq, Eq, Structural)]
pub enum WaveletTransform {
    Irreversible97,
    Reversible53,
}

impl WaveletTransform {
    pub fn from_u8(value: u8) -> (r: Result<Self>)
        ensures
            value == 0 ==> r == Ok::<Self, DecodeError>(WaveletTransform::Irreversible97),
            value == 1 ==> r == Ok::<Self, DecodeError>(WaveletTransform::Reversible53),
            value > 1 ==> r == Err::<Self, DecodeError>(
                DecodeError::Validation(ValidationError::InvalidTransformation),
            ),
    {
        match value {
            0 => Ok(Self::Irreversible97),
            1 => Ok(Self::Reversible53),
            _ => Err(DecodeError::Validation(ValidationError::InvalidTransformation)),
        }
    }
}

/// Coding style flags (Table A.13).
#[derive(Debug, Clone, Copy)]
pub struct CodingStyleFlags {
    pub raw: u8,
}

impl Default for CodingStyleFlags {
    fn default() -> (r: Self)
        ensures
            r.raw == 0,
    {
        Self { raw: 0 }
    }
}

impl CodingStyleFlags {
    pub fn from_u8(value: u8) -> (r: Self)
        ensures
            r.raw == value,
    {
        Self { raw: value }
    }

    pub fn has_precincts(&self) -> (r: bool)
        ensures
            r == (self.raw & 0x01 != 0),
    {
        (self.raw & 0x01) != 0
    }

    pub fn may_use_sop_markers(&self) -> (r: bool)
        ensures
            r == (self.raw & 0x02 != 0),
    {
        (self.raw & 0x02) != 0
    }

    pub fn uses_eph_marker(&self) -> (r: bool)
        ensures
            r == (self.raw & 0x04 != 0),
    {
        (self.raw & 0x04) != 0
    }
}

/// Code-block style flags (Table A.19).
#[derive(Debug, Clone, Copy)]
pub struct CodeBlockStyle {
    pub selective_arithmetic_coding_bypass: bool,
    pub reset_context_probabilities: bool,
    pub termination_on_each_pass: bool,
    pub vertically_causal_context: bool,
    pub segmentation_symbols: bool,
}

impl Default for CodeBlockStyle {
    fn default() -> (r: Self)
        ensures
            !r.selective_arithmetic_coding_bypass,
            !r.reset_context_probabilities,
            !r.termination_on_each_pass,
            !r.vertically_causal_context,
            !r.segmentation_symbols,
    {
        Self {
            selective_arithmetic_coding_bypass: false,
            reset_context_probabilities: false,
            termination_on_each_pass: false,
            vertically_causal_context: false,
            segmentation_symbols: false,
        }
    }
}

/// The code-block style that the flag byte `value` describes.
pub open spec fn code_block_style_spec(value: u8) -> CodeBlockStyle {
    CodeBlockStyle {
        selective_arithmetic_coding_bypass: (value & 0x01) != 0,
        reset_context_probabilities: (value & 0x02) != 0,
        termination_on_each_pass: (value & 0x04) != 0,
        vertically_causal_context: (value & 0x08) != 0,
        segmentation_symbols: (value & 0x20) != 0,
    }
}

/// Each code-block style flag of Table A.19 has a bit of its own: setting
/// bit 0x01 of the style byte turns on exactly the selective arithmetic
/// coding bypass, 0x02 the context reset, 0x04 the termination on each
/// pass, 0x08 the vertically causal context and 0x20 the segmentation
/// symbols; the predictable termination bit 0x10, which is informative,
/// and the bits 0x40 and 0x80 change nothing.
pub proof fn lemma_code_block_style_bits(v: u8)
    ensures
        code_block_style_spec(v | 0x01) == (CodeBlockStyle {
            selective_arithmetic_coding_bypass: true,
            ..code_block_style_spec(v & 0xfe)
        }),
        !code_block_style_spec(v & 0xfe).selective_arithmetic_coding_bypass,
        code_block_style_spec(v | 0x02) == (CodeBlockStyle {
            reset_context_probabilities: true,
            ..code_block_style_spec(v & 0xfd)
        }),
        !code_block_style_spec(v & 0xfd).reset_context_probabilities,
        code_block_style_spec(v | 0x04) == (CodeBlockStyle {
            termination_on_each_pass: true,
            ..code_block_style_spec(v & 0xfb)
        }),
        !code_block_style_spec(v & 0xfb).termination_on_each_pass,
        code_block_style_spec(v | 0x08) == (CodeBlockStyle {
            vertically_causal_context: true,
            ..code_block_style_spec(v & 0xf7)
        }),
        !code_block_style_spec(v & 0xf7).vertically_causal_context,
        code_block_style_spec(v | 0x20) == (CodeBlockStyle {
            segmentation_symbols: true,
            ..code_block_style_spec(v & 0xdf)
        }),
        !code_block_style_spec(v & 0xdf).segmentation_symbols,
        code_block_style_spec(v | 0xd0) == code_block_style_spec(v & 0x2f),
{
    assert({
        &&& (v | 0x01) & 0x01 != 0 && (v & 0xfe) & 0x01 == 0
        &&& (v | 0x02) & 0x02 != 0 && (v & 0xfd) & 0x02 == 0
        &&& (v | 0x04) & 0x04 != 0 && (v & 0xfb) & 0x04 == 0
        &&& (v | 0x08) & 0x08 != 0 && (v & 0xf7) & 0x08 == 0
        &&& (v | 0x20) & 0x20 != 0 && (v & 0xdf) & 0x20 == 0
        &&& ((v | 0x01) & 0x02 == (v & 0xfe) & 0x02) && ((v | 0x01) & 0x04 == (v & 0xfe) & 0x04)
        &&& ((v | 0x01) & 0x08 == (v & 0xfe) & 0x08) && ((v | 0x01) & 0x20 == (v & 0xfe) & 0x20)
        &&& ((v | 0x02) & 0x01 == (v & 0xfd) & 0x01) && ((v | 0x02) & 0x04 == (v & 0xfd) & 0x04)
        &&& ((v | 0x02) & 0x08 == (v & 0xfd) & 0x08) && ((v | 0x02) & 0x20 == (v & 0xfd) & 0x20)
        &&& ((v | 0x04) & 0x01 == (v & 0xfb) & 0x01) && ((v | 0x04) & 0x02 == (v & 0xfb) & 0x02)
        &&& ((v | 0x04) & 0x08 == (v & 0xfb) & 0x08) && ((v | 0x04) & 0x20 == (v & 0xfb) & 0x20)
        &&& ((v | 0x08) & 0x01 == (v & 0xf7) & 0x01) && ((v | 0x08) & 0x02 == (v & 0xf7) & 0x02)
        &&& ((v | 0x08) & 0x04 == (v & 0xf7) & 0x04) && ((v | 0x08) & 0x20 == (v & 0xf7) & 0x20)
        &&& ((v | 0x20) & 0x01 == (v & 0xdf) & 0x01) && ((v | 0x20) & 0x02 == (v & 0xdf) & 0x02)
        &&& ((v | 0x20) & 0x04 == (v & 0xdf) & 0x04) && ((v | 0x20) & 0x08 == (v & 0xdf) & 0x08)
        &&& ((v | 0xd0) & 0x01 == (v & 0x2f) & 0x01) && ((v | 0xd0) & 0x02 == (v & 0x2f) & 0x02)
        &&& ((v | 0xd0) & 0x04 == (v & 0x2f) & 0x04) && ((v | 0xd0) & 0x08 == (v & 0x2f) & 0x08)
        &&& ((v | 0xd0) & 0x20 == (v & 0x2f) & 0x20)
    }) by (bit_vector);
}

impl CodeBlockStyle {
    pub fn from_u8(value: u8) -> (r: Self)
        ensures
            r == code_block_style_spec(value),
    {
        Self {
            selective_arithmetic_coding_bypass: (value & 0x01) != 0,
            reset_context_probabilities: (value & 0x02) != 0,
            termination_on_each_pass: (value & 0x04) != 0,
            vertically_causal_context: (value & 0x08) != 0,
            // The predictable termination flag is only informative and
            // can therefore be ignored.
            segmentation_symbols: (value & 0x20) != 0,
        }
    }
}

/// Quantization style (Table A.28).
#[derive(Debug, Clone, Copy, PartialEq, Eq, Structural)]
pub enum QuantizationStyle {
    NoQuantization,
    ScalarDerived,
    ScalarExpounded,
}

impl QuantizationStyle {
    pub fn from_u8(value: u8) -> (r: Result<Self>)
        ensures
            value & 0x1F == 0 ==> r == Ok::<Self, DecodeError>(QuantizationStyle::NoQuantization),
            value & 0x1F == 1 ==> r == Ok::<Self, DecodeError>(QuantizationStyle::ScalarDerived),
            value & 0x1F == 2 ==> r == Ok::<Self, DecodeError>(
                QuantizationStyle::ScalarExpounded,
            ),
            value & 0x1F > 2 ==> r == Err::<Self, DecodeError>(
                DecodeError::Validation(ValidationError::InvalidQuantizationStyle),
            ),
    {
        match value & 0x1F {
            0 => Ok(Self::NoQuantization),
            1 => Ok(Self::ScalarDerived),
            2 => Ok(Self::ScalarExpounded),
            _ => Err(DecodeError::Validation(ValidationError::InvalidQuantizationStyle)),
        }
    }
}

#[derive(Clone, Copy, Debug)]
pub struct StepSize {
    pub mantissa: u16,
    pub exponent: u16,
}

/// The step size of a reversible sub-band: 5 bits of exponent, 3 reserved.
pub open spec fn no_quant_step(value: u8) -> StepSize {
    StepSize { mantissa: 0, exponent: (value >> 3u8) as u16 }
}

/// The step size of an irreversible sub-band: 5 bits of exponent, 11 bits of
/// mantissa.
pub open spec fn irreversible_step(value: u16) -> StepSize {
    StepSize { exponent: value >> 11u16, mantissa: value & 0x7FFu16 }
}

/// The step sizes that `quantization_parameters` reads at byte offset `p`,
/// with the number of bytes they take.
pub open spec fn quant_steps(b: Seq<u8>, p: int, style: QuantizationStyle, remaining: int) -> Option<(Seq<StepSize>, int)> {
    match style {
        QuantizationStyle::NoQuantization => if p + remaining <= b.len() {
            Some((Seq::new(remaining as nat, |j: int| no_quant_step(b[p + j])), remaining))
        } else {
            None
        },
        QuantizationStyle::ScalarDerived => if p + 2 <= b.len() {
            Some((seq![irreversible_step(u16_at(b, p) as u16)], 2))
        } else {
            None
        },
        QuantizationStyle::ScalarExpounded => {
            let n = remaining / 2;
            if p + 2 * n <= b.len() {
                Some((Seq::new(n as nat, |j: int| irreversible_step(u16_at(b, p + 2 * j) as u16)), 2 * n))
            } else {
                None
            }
        },
    }
}

/// Quantization properties, from the QCD and QCC markers (A.6.4 and A.6.5).
pub struct QuantizationInfo {
    pub quantization_style: QuantizationStyle,
    pub guard_bits: u8,
    pub step_sizes: Vec<StepSize>,
}

impl QuantizationInfo {
    /// Same values, field by field.
    pub open spec fn same(&self, other: &Self) -> bool {
        &&& self.quantization_style == other.quantization_style
        &&& self.guard_bits == other.guard_bits
        &&& self.step_sizes@ == other.step_sizes@
    }

    /// A copy with the same values.
    pub fn duplicate(&self) -> (r: Self)
        ensures
            r.same(self),
    {
        QuantizationInfo {
            quantization_style: self.quantization_style,
            guard_bits: self.guard_bits,
            step_sizes: copy_vec(&self.step_sizes),
        }
    }
}

/// A copy of a vector of `Copy` values.
pub fn copy_vec<T: Copy>(v: &Vec<T>) -> (r: Vec<T>)
    ensures
        r@ == v@,
{
    let mut out: Vec<T> = Vec::new();
    let mut i: usize = 0;
    while i < v.len()
        invariant
            i <= v@.len(),
            out@ == v@.subrange(0, i as int),
        decreases v@.len() - i,
    {
        out.push(v[i]);
        i = i + 1;
        proof {
            assert(out@ =~= v@.subrange(0, i as int));
        }
    }
    proof {
        assert(out@ =~= v@);
    }
    out
}

/// Read the step sizes of a QCD or QCC marker.
pub fn quantization_parameters(
    reader: &mut BitReader<'_>,
    quantization_style: QuantizationStyle,
    remaining_bytes: usize,
) -> (r: Option<QuantizationInfo>)
    requires
        at_byte(*old(reader)),
    ensures
        at_byte(*final(reader)),
        final(reader).bytes() == old(reader).bytes(),
        match quant_steps(
            old(reader).bytes(),
            old(reader).spec_byte_pos(),
            quantization_style,
            remaining_bytes as int,
        ) {
            Some((steps, n)) => (r matches Some(q) && q.step_sizes@ == steps && q.quantization_style
                == quantization_style && q.guard_bits == 0 && advanced(*old(reader), *final(reader), n)),
            None => r is None,
        },
{
    let ghost b = reader.bytes();
    let ghost p = reader.spec_byte_pos();
    let mut step_sizes: Vec<StepSize> = Vec::new();

    match quantization_style {
        QuantizationStyle::NoQuantization => {
            // 8 bits per band (5 bits exponent, 3 bits reserved)
            let mut i: usize = 0;
            while i < remaining_bytes
                invariant
                    b == old(reader).bytes(),
                    p == old(reader).spec_byte_pos(),
                    at_byte(*reader),
                    reader.bytes() == b,
                    reader.spec_byte_pos() == p + i,
                    i <= remaining_bytes,
                    quantization_style == QuantizationStyle::NoQuantization,
                    step_sizes@ == Seq::new(i as nat, |j: int| no_quant_step(b[p + j])),
                decreases remaining_bytes - i,
            {
                let value = match reader.read_byte() {
                    Some(v) => v,
                    None => return None,
                };
                step_sizes.push(StepSize {
                    // Unused.
                    mantissa: 0,
                    exponent: (value >> 3) as u16,
                });
                i = i + 1;
                proof {
                    assert(step_sizes@ =~= Seq::new(i as nat, |j: int| no_quant_step(b[p + j])));
                }
            }
        },
        QuantizationStyle::ScalarDerived => {
            let value = match reader.read_u16() {
                Some(v) => v,
                None => return None,
            };
            step_sizes.push(irreversible(value));
            proof {
                assert(step_sizes@ =~= seq![irreversible_step(u16_at(b, p) as u16)]);
            }
        },
        QuantizationStyle::ScalarExpounded => {
            let num_bands = remaining_bytes / 2;
            let mut i: usize = 0;
            while i < num_bands
                invariant
                    b == old(reader).bytes(),
                    p == old(reader).spec_byte_pos(),
                    at_byte(*reader),
                    reader.bytes() == b,
                    reader.spec_byte_pos() == p + 2 * i,
                    i <= num_bands,
                    num_bands == remaining_bytes / 2,
                    quantization_style == QuantizationStyle::ScalarExpounded,
                    step_sizes@ == Seq::new(i as nat, |j: int| irreversible_step(u16_at(b, p + 2 * j) as u16)),
                decreases num_bands - i,
            {
                let value = match reader.read_u16() {
                    Some(v) => v,
                    None => return None,
                };
                step_sizes.push(irreversible(value));
                i = i + 1;
                proof {
                    assert(step_sizes@ =~= Seq::new(i as nat, |j: int| irreversible_step(u16_at(b, p + 2 * j) as u16)));
                }
            }
        },
    }

    Some(QuantizationInfo { quantization_style, guard_bits: 0, step_sizes })
}

/// Split a 16-bit value into exponent and mantissa.
fn irreversible(val: u16) -> (r: StepSize)
    ensures
        r == irreversible_step(val),
{
    let exponent = val >> 11;
    assert(1u16 << 11u16 == 0x800u16) by (bit_vector);
    let mask: u16 = (1u16 << 11u16) - 1;
    let mantissa = val & mask;

    StepSize { exponent, mantissa }
}

/// The quantization style of the style byte `s`.
pub open spec fn quant_style_spec(s: u8) -> QuantizationStyle {
    if s & 0x1F == 0 {
        QuantizationStyle::NoQuantization
    } else if s & 0x1F == 1 {
        QuantizationStyle::ScalarDerived
    } else {
        QuantizationStyle::ScalarExpounded
    }
}

/// The QCD marker segment at byte offset `p`: the step sizes and the number
/// of bytes the segment takes.
pub open spec fn qcd_spec(b: Seq<u8>, p: int) -> Option<(Seq<StepSize>, QuantizationStyle, u8, int)> {
    if p + 3 > b.len() || b[p + 2] & 0x1F > 2 || u16_at(b, p) < 3 {
        None
    } else {
        let style = quant_style_spec(b[p + 2]);
        match quant_steps(b, p + 3, style, u16_at(b, p) - 3) {
            Some((steps, n)) => Some((steps, style, (b[p + 2] >> 5u8) & 0x07u8, n + 3)),
            None => None,
        }
    }
}

/// QCD marker (A.6.4).
pub fn qcd_marker(reader: &mut BitReader<'_>) -> (r: Option<QuantizationInfo>)
    requires
        at_byte(*old(reader)),
    ensures
        at_byte(*final(reader)),
        final(reader).bytes() == old(reader).bytes(),
        match qcd_spec(old(reader).bytes(), old(reader).spec_byte_pos()) {
            Some((steps, style, guard, n)) => (r matches Some(q) && q.step_sizes@ == steps
                && q.quantization_style == style && q.guard_bits == guard && advanced(
                *old(reader),
                *final(reader),
                n,
            )),
            None => r is None,
        },
{
    // Length.
    let length = match reader.read_u16() {
        Some(v) => v,
        None => return None,
    };

    let sqcd_val = match reader.read_byte() {
        Some(v) => v,
        None => return None,
    };
    proof {
        let v = sqcd_val;
        assert((v & 0x1F) & 0x1F == v & 0x1F) by (bit_vector);
    }
    let quantization_style = match QuantizationStyle::from_u8(sqcd_val & 0x1F) {
        Ok(q) => q,
        Err(_) => return None,
    };
    let guard_bits = (sqcd_val >> 5) & 0x07;

    let remaining_bytes = match length.checked_sub(3) {
        Some(v) => v as usize,
        None => return None,
    };

    let mut parameters = match quantization_parameters(reader, quantization_style, remaining_bytes) {
        Some(p) => p,
        None => return None,
    };
    parameters.guard_bits = guard_bits;

    Some(parameters)
}

/// The QCC marker segment at byte offset `p`, for an image with `csiz`
/// components: the component index, the step sizes and the number of bytes
/// the segment takes.
pub open spec fn qcc_spec(b: Seq<u8>, p: int, csiz: u16) -> Option<(u16, Seq<StepSize>, QuantizationStyle, u8, int)> {
    let w: int = if csiz < 257 { 1 } else { 2 };
    if p + 3 + w > b.len() || b[p + 2 + w] & 0x1F > 2 || u16_at(b, p) < 3 + w {
        None
    } else {
        let idx: u16 = if csiz < 257 { b[p + 2] as u16 } else { u16_at(b, p + 2) as u16 };
        let style = quant_style_spec(b[p + 2 + w]);
        match quant_steps(b, p + 3 + w, style, u16_at(b, p) - 3 - w) {
            Some((steps, n)) => Some((idx, steps, style, (b[p + 2 + w] >> 5u8) & 0x07u8, n + 3 + w)),
            None => None,
        }
    }
}

/// QCC marker (A.6.5).
pub fn qcc_marker(reader: &mut BitReader<'_>, csiz: u16) -> (r: Option<(u16, QuantizationInfo)>)
    requires
        at_byte(*old(reader)),
    ensures
        at_byte(*final(reader)),
        final(reader).bytes() == old(reader).bytes(),
        match qcc_spec(old(reader).bytes(), old(reader).spec_byte_pos(), csiz) {
            Some((idx, steps, style, guard, n)) => (r matches Some((i, q)) && i == idx && q.step_sizes@
                == steps && q.quantization_style == style && q.guard_bits == guard && advanced(
                *old(reader),
                *final(reader),
                n,
            )),
            None => r is None,
        },
{
    let ghost b = reader.bytes();
    let ghost p = reader.spec_byte_pos();
    let length = match reader.read_u16() {
        Some(v) => v,
        None => return None,
    };

    let component_index = if csiz < 257 {
        match reader.read_byte() {
            Some(v) => v as u16,
            None => return None,
        }
    } else {
        match reader.read_u16() {
            Some(v) => v,
            None => return None,
        }
    };

    let sqcc_val = match reader.read_byte() {
        Some(v) => v,
        None => return None,
    };
    proof {
        let v = sqcc_val;
        assert((v & 0x1F) & 0x1F == v & 0x1F) by (bit_vector);
    }
    let quantization_style = match QuantizationStyle::from_u8(sqcc_val & 0x1F) {
        Ok(q) => q,
        Err(_) => return None,
    };
    let guard_bits = (sqcc_val >> 5) & 0x07;

    let component_index_size: u16 = if csiz < 257 { 1 } else { 2 };
    let remaining_bytes = match length.checked_sub(2) {
        Some(v) => match v.checked_sub(component_index_size) {
            Some(v) => match v.checked_sub(1) {
                Some(v) => v as usize,
                None => return None,
            },
            None => return None,
        },
        None => return None,
    };

    let mut parameters = match quantization_parameters(reader, quantization_style, remaining_bytes) {
        Some(p) => p,
        None => return None,
    };
    parameters.guard_bits = guard_bits;

    Some((component_index, parameters))
}

/// Shared parameters between the COC and COD marker (A.6.1 and A.6.2).
pub struct CodingStyleParameters {
    pub num_decomposition_levels: u8,
    pub num_resolution_levels: u8,
    pub code_block_width: u8,
    pub code_block_height: u8,
    pub code_block_style: CodeBlockStyle,
    pub transformation: WaveletTransform,
    pub precinct_exponents: Vec<(u8, u8)>,
}

impl CodingStyleParameters {
    /// Same values, field by field.
    pub open spec fn same(&self, other: &Self) -> bool {
        &&& self.num_decomposition_levels == other.num_decomposition_levels
        &&& self.num_resolution_levels == other.num_resolution_levels
        &&& self.code_block_width == other.code_block_width
        &&& self.code_block_height == other.code_block_height
        &&& self.code_block_style == other.code_block_style
        &&& self.transformation == other.transformation
        &&& self.precinct_exponents@ == other.precinct_exponents@
    }

    /// The values that the parser guarantees.
    pub open spec fn wf(&self) -> bool {
        &&& self.num_decomposition_levels <= MAX_RESOLUTION_COUNT
        &&& self.num_resolution_levels == self.num_decomposition_levels + 1
        &&& self.precinct_exponents@.len() == self.num_resolution_levels
        &&& forall|i: int|
            0 <= i < self.precinct_exponents@.len() ==> (#[trigger] self.precinct_exponents@[i]).0
                <= 15 && self.precinct_exponents@[i].1 <= 15
    }

    /// A copy with the same values.
    pub fn duplicate(&self) -> (r: Self)
        ensures
            r.same(self),
    {
        CodingStyleParameters {
            num_decomposition_levels: self.num_decomposition_levels,
            num_resolution_levels: self.num_resolution_levels,
            code_block_width: self.code_block_width,
            code_block_height: self.code_block_height,
            code_block_style: self.code_block_style,
            transformation: self.transformation,
            precinct_exponents: copy_vec(&self.precinct_exponents),
        }
    }
}

/// Whether the coding style parameters at byte offset `p` can be read.
pub open spec fn csp_ok(b: Seq<u8>, p: int, flags: u8) -> bool {
    &&& p + 5 <= b.len()
    &&& b[p] <= MAX_RESOLUTION_COUNT
    &&& b[p + 1] <= 253
    &&& b[p + 2] <= 253
    &&& b[p + 4] <= 1
    &&& (flags & 1 != 0 ==> p + 5 + b[p] + 1 <= b.len())
}

/// The number of bytes the coding style parameters at `p` take.
pub open spec fn csp_len(b: Seq<u8>, p: int, flags: u8) -> int {
    if flags & 1 != 0 {
        5 + b[p] + 1
    } else {
        5
    }
}

/// The precinct exponents read from the byte `v` (Table A.21).
pub open spec fn precinct_size_spec(v: u8) -> (u8, u8) {
    (v & 0xFu8, v >> 4u8)
}

/// `c` holds the coding style parameters at byte offset `p`.
pub open spec fn csp_matches(c: CodingStyleParameters, b: Seq<u8>, p: int, flags: u8) -> bool {
    let nres = b[p] + 1;
    &&& c.num_decomposition_levels == b[p]
    &&& c.num_resolution_levels == nres
    &&& c.code_block_width == b[p + 1] + 2
    &&& c.code_block_height == b[p + 2] + 2
    &&& c.code_block_style == code_block_style_spec(b[p + 3])
    &&& c.transformation == (if b[p + 4] == 0 {
        WaveletTransform::Irreversible97
    } else {
        WaveletTransform::Reversible53
    })
    &&& c.precinct_exponents@ == (if flags & 1 != 0 {
        Seq::new(nres as nat, |i: int| precinct_size_spec(b[p + 5 + i]))
    } else {
        Seq::new(nres as nat, |i: int| (15u8, 15u8))
    })
}

/// Read the parameters shared by the COD and COC markers.
pub fn coding_style_parameters(
    reader: &mut BitReader<'_>,
    coding_style: &CodingStyleFlags,
) -> (r: Option<CodingStyleParameters>)
    requires
        at_byte(*old(reader)),
    ensures
        at_byte(*final(reader)),
        final(reader).bytes() == old(reader).bytes(),
        ({
            let b = old(reader).bytes();
            let p = old(reader).spec_byte_pos();
            if csp_ok(b, p, coding_style.raw) {
                r matches Some(c) && csp_matches(c, b, p, coding_style.raw) && c.wf() && advanced(
                    *old(reader),
                    *final(reader),
                    csp_len(b, p, coding_style.raw),
                )
            } else {
                r is None
            }
        }),
{
    let ghost b = reader.bytes();
    let ghost p = reader.spec_byte_pos();
    let num_decomposition_levels = match reader.read_byte() {
        Some(v) => v,
        None => return None,
    };

    if num_decomposition_levels > MAX_RESOLUTION_COUNT {
        return None;
    }

    let num_resolution_levels = match num_decomposition_levels.checked_add(1) {
        Some(v) => v,
        None => return None,
    };
    let code_block_width = match reader.read_byte() {
        Some(v) => match v.checked_add(2) {
            Some(v) => v,
            None => return None,
        },
        None => return None,
    };
    let code_block_height = match reader.read_byte() {
        Some(v) => match v.checked_add(2) {
            Some(v) => v,
            None => return None,
        },
        None => return None,
    };
    let code_block_style = match reader.read_byte() {
        Some(v) => CodeBlockStyle::from_u8(v),
        None => return None,
    };
    let transformation = match reader.read_byte() {
        Some(v) => match WaveletTransform::from_u8(v) {
            Ok(t) => t,
            Err(_) => return None,
        },
        None => return None,
    };

    let mut precinct_exponents: Vec<(u8, u8)> = Vec::new();
    let has_precincts = coding_style.has_precincts();
    let mut i: u8 = 0;
    if has_precincts {
        // "Entropy coder with precincts defined below."
        while i < num_resolution_levels
            invariant
                b == old(reader).bytes(),
                p == old(reader).spec_byte_pos(),
                at_byte(*reader),
                reader.bytes() == b,
                reader.spec_byte_pos() == p + 5 + i,
                i <= num_resolution_levels,
                num_resolution_levels == b[p] + 1,
                p + 5 <= b.len(),
                coding_style.raw & 1 != 0,
                precinct_exponents@ == Seq::new(i as nat, |j: int| precinct_size_spec(b[p + 5 + j])),
            decreases num_resolution_levels - i,
        {
            // Table A.21.
            let precinct_size = match reader.read_byte() {
                Some(v) => v,
                None => return None,
            };
            let width_exp = precinct_size & 0xF;
            let height_exp = precinct_size >> 4;
            assert(precinct_size & 0xFu8 <= 15 && precinct_size >> 4u8 <= 15) by (bit_vector);

            if width_exp > MAX_PRECINCT_EXPONENT || height_exp > MAX_PRECINCT_EXPONENT {
                return None;
            }

            precinct_exponents.push((width_exp, height_exp));
            i = i + 1;
            proof {
                assert(precinct_exponents@ =~= Seq::new(i as nat, |j: int| precinct_size_spec(b[p + 5 + j])));
            }
        }
    } else {
        // "Entropy coder, precincts with PPx = 15 and PPy = 15"
        while i < num_resolution_levels
            invariant
                i <= num_resolution_levels,
                precinct_exponents@ == Seq::new(i as nat, |j: int| (15u8, 15u8)),
            decreases num_resolution_levels - i,
        {
            precinct_exponents.push((15, 15));
            i = i + 1;
            proof {
                assert(precinct_exponents@ =~= Seq::new(i as nat, |j: int| (15u8, 15u8)));
            }
        }
    }

    let r = CodingStyleParameters {
        num_decomposition_levels,
        num_resolution_levels,
        code_block_width,
        code_block_height,
        code_block_style,
        transformation,
        precinct_exponents,
    };
    proof {
        assert forall|i: int| 0 <= i < r.precinct_exponents@.len() implies (#[trigger] r.precinct_exponents@[i]).0
            <= 15 && r.precinct_exponents@[i].1 <= 15 by {
            if has_precincts {
                let v = b[p + 5 + i];
                assert(v & 0xFu8 <= 15 && v >> 4u8 <= 15) by (bit_vector);
            }
        }
    }
    Some(r)
}

/// Values of coding style for each component, from the COC marker (A.6.2).
pub struct CodingStyleComponent {
    pub flags: CodingStyleFlags,
    pub parameters: CodingStyleParameters,
}

impl CodingStyleComponent {
    /// Same values, field by field.
    pub open spec fn same(&self, other: &Self) -> bool {
        self.flags == other.flags && self.parameters.same(&other.parameters)
    }

    /// A copy with the same values.
    pub fn duplicate(&self) -> (r: Self)
        ensures
            r.same(self),
    {
        CodingStyleComponent { flags: self.flags, parameters: self.parameters.duplicate() }
    }
}

/// Default values for coding style, from the COD marker (A.6.1).
pub struct CodingStyleDefault {
    pub progression_order: ProgressionOrder,
    pub num_layers: u8,
    pub mct: bool,
    // This is the default used for all components, if not overridden by COC.
    pub component_parameters: CodingStyleComponent,
}

/// Whether the COD marker segment at byte offset `p` can be read.
pub open spec fn cod_ok(b: Seq<u8>, p: int) -> bool {
    &&& p + 8 <= b.len()
    &&& b[p + 3] <= 4
    &&& 0 < u16_at(b, p + 4) <= MAX_LAYER_COUNT
    &&& csp_ok(b, p + 7, b[p + 2])
}

/// COD marker (A.6.1).
pub fn cod_marker(reader: &mut BitReader<'_>) -> (r: Option<CodingStyleDefault>)
    requires
        at_byte(*old(reader)),
    ensures
        at_byte(*final(reader)),
        final(reader).bytes() == old(reader).bytes(),
        ({
            let b = old(reader).bytes();
            let p = old(reader).spec_byte_pos();
            if cod_ok(b, p) {
                r matches Some(c) && c.component_parameters.flags.raw == b[p + 2]
                    && Some(c.progression_order) == progression_order_spec(b[p + 3]) && c.num_layers
                    == u16_at(b, p + 4) && c.mct == (b[p + 6] == 1) && csp_matches(
                    c.component_parameters.parameters,
                    b,
                    p + 7,
                    b[p + 2],
                ) && c.component_parameters.parameters.wf() && advanced(
                    *old(reader),
                    *final(reader),
                    7 + csp_len(b, p + 7, b[p + 2]),
                )
            } else {
                r is None
            }
        }),
{
    // Length.
    let _ = match reader.read_u16() {
        Some(v) => v,
        None => return None,
    };

    let coding_style_flags = match reader.read_byte() {
        Some(v) => CodingStyleFlags::from_u8(v),
        None => return None,
    };
    let progression_order = match reader.read_byte() {
        Some(v) => match ProgressionOrder::from_u8(v) {
            Ok(p) => p,
            Err(_) => return None,
        },
        None => return None,
    };

    let num_layers = match reader.read_u16() {
        Some(v) => v,
        None => return None,
    };

    // We don't support more than 32-bit (and thus 32 layers).
    if num_layers == 0 || num_layers > MAX_LAYER_COUNT as u16 {
        return None;
    }

    let mct = match reader.read_byte() {
        Some(v) => v == 1,
        None => return None,
    };

    let coding_style_parameters = match coding_style_parameters(reader, &coding_style_flags) {
        Some(c) => c,
        None => return None,
    };

    Some(CodingStyleDefault {
        progression_order,
        num_layers: num_layers as u8,
        mct,
        component_parameters: CodingStyleComponent {
            flags: coding_style_flags,
            parameters: coding_style_parameters,
        },
    })
}

/// Whether the COC marker segment at byte offset `p` can be read, for an
/// image with `csiz` components.
pub open spec fn coc_ok(b: Seq<u8>, p: int, csiz: u16) -> bool {
    let w: int = if csiz < 257 { 1 } else { 2 };
    &&& p + 3 + w <= b.len()
    &&& csp_ok(b, p + 3 + w, b[p + 2 + w])
}

/// COC marker (A.6.2).
pub fn coc_marker(reader: &mut BitReader<'_>, csiz: u16) -> (r: Option<(u16, CodingStyleComponent)>)
    requires
        at_byte(*old(reader)),
    ensures
        at_byte(*final(reader)),
        final(reader).bytes() == old(reader).bytes(),
        ({
            let b = old(reader).bytes();
            let p = old(reader).spec_byte_pos();
            let w: int = if csiz < 257 { 1 } else { 2 };
            if coc_ok(b, p, csiz) {
                r matches Some((idx, c)) && idx == (if csiz < 257 {
                    b[p + 2] as int
                } else {
                    u16_at(b, p + 2)
                }) && c.flags.raw == b[p + 2 + w] && csp_matches(c.parameters, b, p + 3 + w, b[p + 2 + w])
                    && c.parameters.wf() && advanced(
                    *old(reader),
                    *final(reader),
                    3 + w + csp_len(b, p + 3 + w, b[p + 2 + w]),
                )
            } else {
                r is None
            }
        }),
{
    // Length.
    let _ = match reader.read_u16() {
        Some(v) => v,
        None => return None,
    };

    let component_index = if csiz < 257 {
        match reader.read_byte() {
            Some(v) => v as u16,
            None => return None,
        }
    } else {
        match reader.read_u16() {
            Some(v) => v,
            None => return None,
        }
    };
    let coding_style = match reader.read_byte() {
        Some(v) => CodingStyleFlags::from_u8(v),
        None => return None,
    };

    let parameters = match coding_style_parameters(reader, &coding_style) {
        Some(c) => c,
        None => return None,
    };

    let coc = CodingStyleComponent { flags: coding_style, parameters };

    Some((component_index, coc))
}

/// Whether the marker segment at byte offset `p` can be skipped: its length
/// field covers itself and the segment lies within the data.
pub open spec fn skip_ok(b: Seq<u8>, p: int) -> bool {
    p + 2 <= b.len() && u16_at(b, p) >= 2 && p + u16_at(b, p) <= b.len()
}

/// Skip a marker segment by its length field.
pub fn skip_marker_segment(reader: &mut BitReader<'_>) -> (r: Option<()>)
    requires
        at_byte(*old(reader)),
    ensures
        at_byte(*final(reader)),
        final(reader).bytes() == old(reader).bytes(),
        final(reader).spec_byte_pos() >= old(reader).spec_byte_pos(),
        ({
            let b = old(reader).bytes();
            let p = old(reader).spec_byte_pos();
            if skip_ok(b, p) {
                r is Some && advanced(*old(reader), *final(reader), u16_at(b, p))
            } else {
                r is None && final(reader).spec_byte_pos() == (if p + 2 <= b.len() { p + 2 } else { p })
            }
        }),
{
    let length = match reader.read_u16() {
        Some(v) => match v.checked_sub(2) {
            Some(l) => l,
            None => return None,
        },
        None => return None,
    };
    reader.skip_bytes(length as usize)
}

/// COM Marker (A.9.2).
pub fn com_marker(reader: &mut BitReader<'_>) -> (r: Option<()>)
    requires
        at_byte(*old(reader)),
    ensures
        at_byte(*final(reader)),
        final(reader).bytes() == old(reader).bytes(),
        skip_ok(old(reader).bytes(), old(reader).spec_byte_pos()) ==> r is Some && advanced(
            *old(reader),
            *final(reader),
            u16_at(old(reader).bytes(), old(reader).spec_byte_pos()),
        ),
        !skip_ok(old(reader).bytes(), old(reader).spec_byte_pos()) ==> r is None,
{
    skip_marker_segment(reader)
}

/// TLM marker (A.7.1).
pub fn tlm_marker(reader: &mut BitReader<'_>) -> (r: Option<()>)
    requires
        at_byte(*old(reader)),
    ensures
        at_byte(*final(reader)),
        final(reader).bytes() == old(reader).bytes(),
        skip_ok(old(reader).bytes(), old(reader).spec_byte_pos()) ==> r is Some && advanced(
            *old(reader),
            *final(reader),
            u16_at(old(reader).bytes(), old(reader).spec_byte_pos()),
        ),
        !skip_ok(old(reader).bytes(), old(reader).spec_byte_pos()) ==> r is None,
{
    skip_marker_segment(reader)
}

/// RGN marker (A.6.3).
pub fn rgn_marker(reader: &mut BitReader<'_>) -> (r: Option<()>)
    requires
        at_byte(*old(reader)),
    ensures
        at_byte(*final(reader)),
        final(reader).bytes() == old(reader).bytes(),
        skip_ok(old(reader).bytes(), old(reader).spec_byte_pos()) ==> r is Some && advanced(
            *old(reader),
            *final(reader),
            u16_at(old(reader).bytes(), old(reader).spec_byte_pos()),
        ),
        !skip_ok(old(reader).bytes(), old(reader).spec_byte_pos()) ==> r is None,
{
    skip_marker_segment(reader)
}

/// Component information (A.5.1 and Table A.11).
#[derive(Debug, Clone, Copy, PartialEq, Eq)]
pub struct ComponentSizeInfo {
    pub precision: u8,
    pub horizontal_resolution: u8,
    pub vertical_resolution: u8,
}

/// Image and tile sizes, from the SIZ marker (A.5.1).
pub struct SizeData {
    /// Width of the reference grid (Xsiz).
    pub reference_grid_width: u32,
    /// Height of the reference grid (Ysiz).
    pub reference_grid_height: u32,
    /// Horizontal offset from the origin of the reference grid to the
    /// left side of the image area (`XOsiz`).
    pub image_area_x_offset: u32,
    /// Vertical offset from the origin of the reference grid to the top side of the image area (`YOsiz`).
    pub image_area_y_offset: u32,
    /// Width of one reference tile with respect to the reference grid (`XTSiz`).
    pub tile_width: u32,
    /// Height of one reference tile with respect to the reference grid (`YTSiz`).
    pub tile_height: u32,
    /// Horizontal offset from the origin of the reference grid to the left side of the first tile (`XTOSiz`).
    pub tile_x_offset: u32,
    /// Vertical offset from the origin of the reference grid to the top side of the first tile (`YTOSiz`).
    pub tile_y_offset: u32,
    /// Component information (SSiz/XRSiz/YRSiz).
    pub component_sizes: Vec<ComponentSizeInfo>,
    /// Shrink factor in the x direction. See the comment in the parsing method.
    pub x_shrink_factor: u32,
    /// Shrink factor in the y direction. See the comment in the parsing method.
    pub y_shrink_factor: u32,
    /// Shrink factor in the x direction due to requesting a lower resolution level.
    pub x_resolution_shrink_factor: u32,
    /// Shrink factor in the y direction due to requesting a lower resolution level.
    pub y_resolution_shrink_factor: u32,
}

impl SizeData {
    /// The tile grid is non-empty: tiles have a size and start inside the
    /// reference grid.
    pub open spec fn tiles_ok(&self) -> bool {
        &&& self.tile_width > 0
        &&& self.tile_height > 0
        &&& self.tile_x_offset < self.reference_grid_width
        &&& self.tile_y_offset < self.reference_grid_height
    }

    /// The image area and the shrink factors allow computing the image size.
    pub open spec fn image_ok(&self) -> bool {
        &&& self.image_area_x_offset <= self.reference_grid_width
        &&& self.image_area_y_offset <= self.reference_grid_height
        &&& 0 < self.x_shrink_factor * self.x_resolution_shrink_factor <= u32::MAX
        &&& 0 < self.y_shrink_factor * self.y_resolution_shrink_factor <= u32::MAX
    }

    /// Formula B-5, horizontally.
    pub open spec fn spec_num_x_tiles(&self) -> int {
        ceil_div(self.reference_grid_width - self.tile_x_offset, self.tile_width as int)
    }

    /// Formula B-5, vertically.
    pub open spec fn spec_num_y_tiles(&self) -> int {
        ceil_div(self.reference_grid_height - self.tile_y_offset, self.tile_height as int)
    }

    /// The width of the image after shrinking.
    pub open spec fn spec_image_width(&self) -> int {
        ceil_div(
            self.reference_grid_width - self.image_area_x_offset,
            self.x_shrink_factor * self.x_resolution_shrink_factor,
        )
    }

    /// The height of the image after shrinking.
    pub open spec fn spec_image_height(&self) -> int {
        ceil_div(
            self.reference_grid_height - self.image_area_y_offset,
            self.y_shrink_factor * self.y_resolution_shrink_factor,
        )
    }

    /// The horizontal coordinate of tile `idx` in the tile grid (B-6).
    pub fn tile_x_coord(&self, idx: u32) -> (r: u32)
        requires
            self.tiles_ok(),
        ensures
            r == (idx as int) % self.spec_num_x_tiles(),
    {
        // See B-6.
        idx % self.num_x_tiles()
    }

    /// The vertical coordinate of tile `idx` in the tile grid (B-6).
    pub fn tile_y_coord(&self, idx: u32) -> (r: u32)
        requires
            self.tiles_ok(),
        ensures
            r == (idx as int) / self.spec_num_x_tiles(),
    {
        // See B-6.
        idx / self.num_x_tiles()
    }

    /// The number of tiles in the x direction.
    pub fn num_x_tiles(&self) -> (r: u32)
        requires
            self.tile_width > 0,
            self.tile_x_offset <= self.reference_grid_width,
        ensures
            r == self.spec_num_x_tiles(),
            self.tile_x_offset < self.reference_grid_width ==> r > 0,
    {
        // See formula B-5.
        let r = div_ceil(self.reference_grid_width - self.tile_x_offset, self.tile_width);
        proof {
            lemma_ceil_div_pos(self.reference_grid_width - self.tile_x_offset, self.tile_width as int);
        }
        r
    }

    /// The number of tiles in the y direction.
    pub fn num_y_tiles(&self) -> (r: u32)
        requires
            self.tile_height > 0,
            self.tile_y_offset <= self.reference_grid_height,
        ensures
            r == self.spec_num_y_tiles(),
            self.tile_y_offset < self.reference_grid_height ==> r > 0,
    {
        // See formula B-5.
        let r = div_ceil(self.reference_grid_height - self.tile_y_offset, self.tile_height);
        proof {
            lemma_ceil_div_pos(self.reference_grid_height - self.tile_y_offset, self.tile_height as int);
        }
        r
    }

    /// The total number of tiles.
    pub fn num_tiles(&self) -> (r: u32)
        requires
            self.tiles_ok(),
            self.spec_num_x_tiles() * self.spec_num_y_tiles() <= u32::MAX,
        ensures
            r == self.spec_num_x_tiles() * self.spec_num_y_tiles(),
    {
        self.num_x_tiles() * self.num_y_tiles()
    }

    /// Return the overall width of the image.
    pub fn image_width(&self) -> (r: u32)
        requires
            self.image_ok(),
        ensures
            r == self.spec_image_width(),
    {
        div_ceil(
            self.reference_grid_width - self.image_area_x_offset,
            self.x_shrink_factor * self.x_resolution_shrink_factor,
        )
    }

    /// Return the overall height of the image.
    pub fn image_height(&self) -> (r: u32)
        requires
            self.image_ok(),
        ensures
            r == self.spec_image_height(),
    {
        div_ceil(
            self.reference_grid_height - self.image_area_y_offset,
            self.y_shrink_factor * self.y_resolution_shrink_factor,
        )
    }
}

/// A positive numerator gives a positive rounded-up quotient.
pub proof fn lemma_ceil_div_pos(a: int, b: int)
    requires
        b > 0,
        a >= 0,
    ensures
        a > 0 ==> ceil_div(a, b) > 0,
        ceil_div(a, b) <= a,
        ceil_div(a, b) >= 0,
{
    assert(a > 0 ==> (a + b - 1) / b >= 1) by (nonlinear_arith)
        requires
            b > 0,
            a >= 0,
    ;
    assert((a + b - 1) / b <= a) by (nonlinear_arith)
        requires
            b > 0,
            a >= 0,
    ;
    assert((a + b - 1) / b >= 0) by (nonlinear_arith)
        requires
            b > 0,
            a >= 0,
    ;
}

/// The component description `i` of the SIZ segment at byte offset `p`.
pub open spec fn siz_component(b: Seq<u8>, p: int, i: int) -> ComponentSizeInfo {
    ComponentSizeInfo {
        precision: ((b[p + 38 + 3 * i] & 0x7Fu8) + 1) as u8,
        horizontal_resolution: b[p + 39 + 3 * i],
        vertical_resolution: b[p + 40 + 3 * i],
    }
}

/// The number of components of the SIZ segment at byte offset `p`.
pub open spec fn siz_csiz(b: Seq<u8>, p: int) -> int {
    u16_at(b, p + 36)
}

/// Whether the SIZ segment at byte offset `p` can be read.
pub open spec fn siz_ok(b: Seq<u8>, p: int) -> bool {
    &&& p + 38 <= b.len()
    &&& u32_at(b, p + 12) < u32_at(b, p + 4)
    &&& u32_at(b, p + 16) < u32_at(b, p + 8)
    &&& siz_csiz(b, p) > 0
    &&& p + 38 + 3 * siz_csiz(b, p) <= b.len()
    &&& forall|i: int| 0 <= i < siz_csiz(b, p) ==> (#[trigger] siz_component(b, p, i)).precision <= BITPLANE_BIT_SIZE
}

/// `s` holds the values of the SIZ segment at byte offset `p`.
pub open spec fn siz_matches(s: &SizeData, b: Seq<u8>, p: int) -> bool {
    let n = siz_csiz(b, p);
    let same = forall|i: int| 0 <= i < n ==> (#[trigger] siz_component(b, p, i)).horizontal_resolution
        == siz_component(b, p, 0).horizontal_resolution && siz_component(b, p, i).vertical_resolution
        == siz_component(b, p, 0).vertical_resolution;
    &&& s.reference_grid_width == u32_at(b, p + 4)
    &&& s.reference_grid_height == u32_at(b, p + 8)
    &&& s.image_area_x_offset == u32_at(b, p + 12)
    &&& s.image_area_y_offset == u32_at(b, p + 16)
    &&& s.tile_width == u32_at(b, p + 20)
    &&& s.tile_height == u32_at(b, p + 24)
    &&& s.tile_x_offset == u32_at(b, p + 28)
    &&& s.tile_y_offset == u32_at(b, p + 32)
    &&& s.component_sizes@ == Seq::new(n as nat, |i: int| siz_component(b, p, i))
    &&& s.x_shrink_factor == (if same { siz_component(b, p, 0).horizontal_resolution as int } else { 1 })
    &&& s.y_shrink_factor == (if same { siz_component(b, p, 0).vertical_resolution as int } else { 1 })
    &&& s.x_resolution_shrink_factor == 1
    &&& s.y_resolution_shrink_factor == 1
}

/// The fields of `s` are those of the SIZ marker segment whose body starts
/// at byte `p`, but for the factors by which skipped resolution levels
/// shrink the image.
pub open spec fn siz_grid_matches(s: &SizeData, b: Seq<u8>, p: int) -> bool {
    let n = siz_csiz(b, p);
    &&& s.reference_grid_width == u32_at(b, p + 4)
    &&& s.reference_grid_height == u32_at(b, p + 8)
    &&& s.image_area_x_offset == u32_at(b, p + 12)
    &&& s.image_area_y_offset == u32_at(b, p + 16)
    &&& s.tile_width == u32_at(b, p + 20)
    &&& s.tile_height == u32_at(b, p + 24)
    &&& s.tile_x_offset == u32_at(b, p + 28)
    &&& s.tile_y_offset == u32_at(b, p + 32)
    &&& s.component_sizes@ == Seq::new(n as nat, |i: int| siz_component(b, p, i))
    &&& s.x_shrink_factor == siz_x_shrink(b, p)
    &&& s.y_shrink_factor == siz_y_shrink(b, p)
}

/// All components of the SIZ segment at byte offset `p` have the
/// subsampling of the first.
pub open spec fn siz_same_subsampling(b: Seq<u8>, p: int) -> bool {
    forall|i: int| 0 <= i < siz_csiz(b, p) ==> (#[trigger] siz_component(b, p, i)).horizontal_resolution
        == siz_component(b, p, 0).horizontal_resolution && siz_component(b, p, i).vertical_resolution
        == siz_component(b, p, 0).vertical_resolution
}

/// The horizontal factor by which the image shrinks: the common
/// horizontal subsampling of the components, else one.
pub open spec fn siz_x_shrink(b: Seq<u8>, p: int) -> int {
    if siz_same_subsampling(b, p) { siz_component(b, p, 0).horizontal_resolution as int } else { 1 }
}

/// The vertical factor by which the image shrinks.
pub open spec fn siz_y_shrink(b: Seq<u8>, p: int) -> int {
    if siz_same_subsampling(b, p) { siz_component(b, p, 0).vertical_resolution as int } else { 1 }
}

/// Read the fields of the SIZ marker segment.
pub fn size_marker_inner(reader: &mut BitReader<'_>) -> (r: Option<SizeData>)
    requires
        at_byte(*old(reader)),
    ensures
        at_byte(*final(reader)),
        final(reader).bytes() == old(reader).bytes(),
        ({
            let b = old(reader).bytes();
            let p = old(reader).spec_byte_pos();
            if siz_ok(b, p) {
                r matches Some(s) && siz_matches(&s, b, p) && advanced(
                    *old(reader),
                    *final(reader),
                    38 + 3 * siz_csiz(b, p),
                )
            } else {
                r is None
            }
        }),
{
    let ghost b = reader.bytes();
    let ghost p = reader.spec_byte_pos();
    // Length.
    if reader.read_u16().is_none() {
        return None;
    }
    // Decoder capabilities.
    if reader.read_u16().is_none() {
        return None;
    }

    let xsiz = match reader.read_u32() { Some(v) => v, None => return None };
    let ysiz = match reader.read_u32() { Some(v) => v, None => return None };
    let x_osiz = match reader.read_u32() { Some(v) => v, None => return None };
    let y_osiz = match reader.read_u32() { Some(v) => v, None => return None };
    let xt_siz = match reader.read_u32() { Some(v) => v, None => return None };
    let yt_siz = match reader.read_u32() { Some(v) => v, None => return None };
    let xto_siz = match reader.read_u32() { Some(v) => v, None => return None };
    let yto_siz = match reader.read_u32() { Some(v) => v, None => return None };
    let csiz = match reader.read_u16() { Some(v) => v, None => return None };

    if x_osiz >= xsiz || y_osiz >= ysiz {
        return None;
    }

    if csiz == 0 {
        return None;
    }

    let mut components: Vec<ComponentSizeInfo> = Vec::new();
    let mut k: u16 = 0;
    while k < csiz
        invariant
            b == old(reader).bytes(),
            p == old(reader).spec_byte_pos(),
            at_byte(*reader),
            reader.bytes() == b,
            reader.spec_byte_pos() == p + 38 + 3 * k,
            k <= csiz,
            csiz == siz_csiz(b, p),
            p + 38 <= b.len(),
            components@ == Seq::new(k as nat, |i: int| siz_component(b, p, i)),
            forall|i: int| 0 <= i < k ==> (#[trigger] siz_component(b, p, i)).precision <= BITPLANE_BIT_SIZE,
        decreases csiz - k,
    {
        let ssiz = match reader.read_byte() { Some(v) => v, None => return None };
        let x_rsiz = match reader.read_byte() { Some(v) => v, None => return None };
        let y_rsiz = match reader.read_byte() { Some(v) => v, None => return None };

        assert(ssiz & 0x7Fu8 <= 0x7F) by (bit_vector);
        let precision = (ssiz & 0x7F) + 1;
        // No idea how to process signed images, but as far as I can tell
        // openjpeg and others just accept it as is, so let's do the same.
        let _is_signed = (ssiz & 0x80) != 0;

        // In theory up to 38 is allowed, but we don't support more than that.
        if precision as u32 > BITPLANE_BIT_SIZE {
            proof {
                assert(siz_component(b, p, k as int).precision > BITPLANE_BIT_SIZE);
            }
            return None;
        }

        components.push(ComponentSizeInfo {
            precision,
            horizontal_resolution: x_rsiz,
            vertical_resolution: y_rsiz,
        });
        k = k + 1;
        proof {
            assert(components@ =~= Seq::new(k as nat, |i: int| siz_component(b, p, i)));
        }
    }

    // In case all components are sub-sampled at the same level, we
    // don't want to render them at the original resolution but instead
    // reduce their dimension so that we can assume a resolution of 1 for
    // all components. This makes the images much smaller.

    let mut x_shrink_factor: u32 = 1;
    let mut y_shrink_factor: u32 = 1;

    let hr = components[0].horizontal_resolution;
    let vr = components[0].vertical_resolution;
    let mut same_resolution = true;

    let mut j: usize = 1;
    while j < components.len()
        invariant
            1 <= j <= components@.len(),
            hr == components@[0].horizontal_resolution,
            vr == components@[0].vertical_resolution,
            same_resolution == forall|i: int| 0 <= i < j ==> (#[trigger] components@[i]).horizontal_resolution == hr
                && components@[i].vertical_resolution == vr,
        decreases components@.len() - j,
    {
        let c = components[j];
        same_resolution = same_resolution && c.horizontal_resolution == hr;
        same_resolution = same_resolution && c.vertical_resolution == vr;
        j = j + 1;
    }

    if same_resolution {
        x_shrink_factor = hr as u32;
        y_shrink_factor = vr as u32;
    }

    let r = SizeData {
        reference_grid_width: xsiz,
        reference_grid_height: ysiz,
        image_area_x_offset: x_osiz,
        image_area_y_offset: y_osiz,
        tile_width: xt_siz,
        tile_height: yt_siz,
        tile_x_offset: xto_siz,
        tile_y_offset: yto_siz,
        component_sizes: components,
        x_shrink_factor,
        y_shrink_factor,
        x_resolution_shrink_factor: 1,
        y_resolution_shrink_factor: 1,
    };
    proof {
        let n = siz_csiz(b, p);
        let same = forall|i: int| 0 <= i < n ==> (#[trigger] siz_component(b, p, i)).horizontal_resolution
            == siz_component(b, p, 0).horizontal_resolution && siz_component(b, p, i).vertical_resolution
            == siz_component(b, p, 0).vertical_resolution;
        assert(same == same_resolution) by {
            if same_resolution {
                assert forall|i: int| 0 <= i < n implies (#[trigger] siz_component(b, p, i)).horizontal_resolution
                    == siz_component(b, p, 0).horizontal_resolution && siz_component(b, p, i).vertical_resolution
                    == siz_component(b, p, 0).vertical_resolution by {
                    assert(r.component_sizes@[i] == siz_component(b, p, i));
                }
            }
            if same {
                assert forall|i: int| 0 <= i < r.component_sizes@.len() implies (#[trigger] r.component_sizes@[i]).horizontal_resolution == hr
                    && r.component_sizes@[i].vertical_resolution == vr by {
                    assert(siz_component(b, p, i) == siz_component(b, p, i));
                }
            }
        }
    }
    Some(r)
}

/// The largest image width and height that is decoded.
pub const MAX_DIMENSIONS: u32 = 60000;

impl SizeData {
    /// The checks of `size_marker` hold: the tile grid, the image area and
    /// the components are consistent and the image is not too large.
    pub open spec fn valid(&self) -> bool {
        &&& self.tiles_ok()
        &&& self.image_ok()
        &&& self.tile_x_offset <= self.image_area_x_offset
        &&& self.tile_y_offset <= self.image_area_y_offset
        &&& self.tile_x_offset + self.tile_width > self.image_area_x_offset
        &&& self.tile_y_offset + self.tile_height > self.image_area_y_offset
        &&& self.tile_x_offset + self.tile_width <= u32::MAX
        &&& self.tile_y_offset + self.tile_height <= u32::MAX
        &&& self.image_area_x_offset < self.reference_grid_width
        &&& self.image_area_y_offset < self.reference_grid_height
        &&& self.component_sizes@.len() > 0
        &&& forall|i: int|
            0 <= i < self.component_sizes@.len() ==> 1 <= (#[trigger] self.component_sizes@[i]).precision
                <= BITPLANE_BIT_SIZE && self.component_sizes@[i].horizontal_resolution >= 1
                && self.component_sizes@[i].vertical_resolution >= 1
        &&& 1 <= self.x_shrink_factor <= 255
        &&& 1 <= self.y_shrink_factor <= 255
        &&& self.spec_image_width() <= MAX_DIMENSIONS
        &&& self.spec_image_height() <= MAX_DIMENSIONS
    }
}

/// The error `size_marker` gives for a SIZ segment whose fields are `s`, in
/// the order the checks are made, or `None` if it passes them.
pub open spec fn siz_check(s: &SizeData) -> Option<DecodeError> {
    if s.tile_width == 0 || s.tile_height == 0 || s.reference_grid_width == 0 || s.reference_grid_height == 0 {
        Some(DecodeError::Validation(ValidationError::InvalidDimensions))
    } else if s.tile_x_offset >= s.reference_grid_width || s.tile_y_offset >= s.reference_grid_height {
        Some(DecodeError::Validation(ValidationError::InvalidDimensions))
    } else if s.tile_x_offset > s.image_area_x_offset || s.tile_y_offset > s.image_area_y_offset {
        Some(DecodeError::Tile(TileError::InvalidOffsets))
    } else if s.tile_x_offset + s.tile_width > u32::MAX || s.tile_x_offset + s.tile_width <= s.image_area_x_offset
        || s.tile_y_offset + s.tile_height > u32::MAX || s.tile_y_offset + s.tile_height <= s.image_area_y_offset {
        Some(DecodeError::Tile(TileError::InvalidOffsets))
    } else if exists|i: int| 0 <= i < s.component_sizes@.len() && ((#[trigger] s.component_sizes@[i]).precision == 0
        || s.component_sizes@[i].vertical_resolution == 0 || s.component_sizes@[i].horizontal_resolution == 0) {
        Some(DecodeError::Validation(ValidationError::InvalidComponentMetadata))
    } else if s.spec_image_width() > MAX_DIMENSIONS || s.spec_image_height() > MAX_DIMENSIONS {
        Some(DecodeError::Validation(ValidationError::ImageTooLarge))
    } else {
        None
    }
}

/// SIZ marker (A.5.1).
pub fn size_marker(reader: &mut BitReader<'_>) -> (r: Result<SizeData>)
    requires
        at_byte(*old(reader)),
    ensures
        at_byte(*final(reader)),
        final(reader).bytes() == old(reader).bytes(),
        ({
            let b = old(reader).bytes();
            let p = old(reader).spec_byte_pos();
            if !siz_ok(b, p) {
                r == Err::<SizeData, DecodeError>(DecodeError::Marker(MarkerError::ParseFailure("SIZ")))
            } else {
                match r {
                    Ok(s) => siz_check(&s) is None && siz_matches(&s, b, p) && s.valid() && advanced(
                        *old(reader),
                        *final(reader),
                        38 + 3 * siz_csiz(b, p),
                    ),
                    Err(e) => exists|s: SizeData| #[trigger] siz_matches(&s, b, p) && siz_check(&s) == Some(e),
                }
            }
        }),
{
    let ghost b = reader.bytes();
    let ghost p = reader.spec_byte_pos();
    let size_data = match size_marker_inner(reader) {
        Some(s) => s,
        None => return Err(DecodeError::Marker(MarkerError::ParseFailure("SIZ"))),
    };
    assert(siz_matches(&size_data, b, p));

    if size_data.tile_width == 0 || size_data.tile_height == 0 || size_data.reference_grid_width == 0
        || size_data.reference_grid_height == 0 {
        return Err(DecodeError::Validation(ValidationError::InvalidDimensions));
    }
    if size_data.tile_x_offset >= size_data.reference_grid_width || size_data.tile_y_offset
        >= size_data.reference_grid_height {
        return Err(DecodeError::Validation(ValidationError::InvalidDimensions));
    }
    // The tile grid offsets (XTOsiz, YTOsiz) are constrained to be no greater than the
    // image area offsets (B-3).
    if size_data.tile_x_offset > size_data.image_area_x_offset || size_data.tile_y_offset
        > size_data.image_area_y_offset {
        return Err(DecodeError::Tile(TileError::InvalidOffsets));
    }
    // Also, the tile size plus the tile offset shall be greater than the image area offset.
    // This ensures that the first tile (tile 0) will contain at least one reference grid point
    // from the image area (B-4).
    let x_end = match size_data.tile_x_offset.checked_add(size_data.tile_width) {
        Some(v) => v,
        None => return Err(DecodeError::Tile(TileError::InvalidOffsets)),
    };
    if x_end <= size_data.image_area_x_offset {
        return Err(DecodeError::Tile(TileError::InvalidOffsets));
    }
    let y_end = match size_data.tile_y_offset.checked_add(size_data.tile_height) {
        Some(v) => v,
        None => return Err(DecodeError::Tile(TileError::InvalidOffsets)),
    };
    if y_end <= size_data.image_area_y_offset {
        return Err(DecodeError::Tile(TileError::InvalidOffsets));
    }

    let mut i: usize = 0;
    while i < size_data.component_sizes.len()
        invariant
            b == old(reader).bytes(),
            p == old(reader).spec_byte_pos(),
            at_byte(*reader),
            reader.bytes() == b,
            siz_matches(&size_data, b, p),
            siz_ok(b, p),
            size_data.tile_width > 0 && size_data.tile_height > 0,
            size_data.reference_grid_width > 0 && size_data.reference_grid_height > 0,
            size_data.tile_x_offset < size_data.reference_grid_width,
            size_data.tile_y_offset < size_data.reference_grid_height,
            size_data.tile_x_offset <= size_data.image_area_x_offset,
            size_data.tile_y_offset <= size_data.image_area_y_offset,
            size_data.tile_x_offset + size_data.tile_width <= u32::MAX,
            size_data.tile_y_offset + size_data.tile_height <= u32::MAX,
            size_data.tile_x_offset + size_data.tile_width > size_data.image_area_x_offset,
            size_data.tile_y_offset + size_data.tile_height > size_data.image_area_y_offset,
            i <= size_data.component_sizes@.len(),
            forall|j: int| 0 <= j < i ==> 1 <= (#[trigger] size_data.component_sizes@[j]).precision
                && size_data.component_sizes@[j].horizontal_resolution >= 1
                && size_data.component_sizes@[j].vertical_resolution >= 1,
        decreases size_data.component_sizes@.len() - i,
    {
        let comp = size_data.component_sizes[i];
        if comp.precision == 0 || comp.vertical_resolution == 0 || comp.horizontal_resolution == 0 {
            proof {
                assert(size_data.component_sizes@[i as int] == comp);
                assert(siz_check(&size_data) == Some(DecodeError::Validation(ValidationError::InvalidComponentMetadata)));
            }
            return Err(DecodeError::Validation(ValidationError::InvalidComponentMetadata));
        }
        i = i + 1;
    }
    proof {
        let n = size_data.component_sizes@.len();
        assert(size_data.component_sizes@[0] == siz_component(b, p, 0));
        assert(1 <= size_data.x_shrink_factor <= 255);
        assert(1 <= size_data.y_shrink_factor <= 255);
        assert(!(exists|i: int| 0 <= i < size_data.component_sizes@.len() && ((#[trigger] size_data.component_sizes@[i]).precision == 0
            || size_data.component_sizes@[i].vertical_resolution == 0 || size_data.component_sizes@[i].horizontal_resolution == 0)));
    }

    if size_data.image_width() > MAX_DIMENSIONS || size_data.image_height() > MAX_DIMENSIONS {
        return Err(DecodeError::Validation(ValidationError::ImageTooLarge));
    }

    Ok(size_data)
}

/// The parameters of one component: size, coding style and quantization.
pub struct ComponentInfo {
    pub size_info: ComponentSizeInfo,
    pub coding_style: CodingStyleComponent,
    pub quantization_info: QuantizationInfo,
}

/// Whether the step sizes suffice for all sub-bands (the check of
/// `validate` for one component).
pub open spec fn enough_step_sizes(info: &ComponentInfo) -> bool {
    let max_resolution_idx = info.coding_style.parameters.num_resolution_levels - 1;
    let style = info.quantization_info.quantization_style;
    let n = info.quantization_info.step_sizes@.len();
    &&& n > 0
    &&& ((style == QuantizationStyle::NoQuantization || style == QuantizationStyle::ScalarExpounded)
        && max_resolution_idx > 0 ==> 3 * max_resolution_idx < n)
}

impl ComponentInfo {
    /// Same values, field by field.
    pub open spec fn same(&self, other: &Self) -> bool {
        &&& self.size_info == other.size_info
        &&& self.coding_style.same(&other.coding_style)
        &&& self.quantization_info.same(&other.quantization_info)
    }

    /// The values that parsing the markers guarantees: the sizes are in
    /// range and the coding style parameters are consistent.
    pub open spec fn usable(&self) -> bool {
        &&& 1 <= self.size_info.precision <= BITPLANE_BIT_SIZE
        &&& self.size_info.horizontal_resolution >= 1
        &&& self.size_info.vertical_resolution >= 1
        &&& self.coding_style.parameters.wf()
    }

    /// The values that parsing and validating the main header guarantee.
    pub open spec fn wf(&self) -> bool {
        &&& self.usable()
        &&& enough_step_sizes(self)
    }

    /// A copy with the same values.
    pub fn duplicate(&self) -> (r: Self)
        ensures
            r.same(self),
    {
        ComponentInfo {
            size_info: self.size_info,
            coding_style: self.coding_style.duplicate(),
            quantization_info: self.quantization_info.duplicate(),
        }
    }

    pub open spec fn spec_num_resolution_levels(&self) -> u8 {
        self.coding_style.parameters.num_resolution_levels
    }

    pub open spec fn spec_num_decomposition_levels(&self) -> u8 {
        self.coding_style.parameters.num_decomposition_levels
    }

    /// The exponent and mantissa of the quantization step size of a sub-band
    /// (E.1.1), or the error when the header lacks them.
    pub open spec fn spec_exponent_mantissa(&self, sub_band_type: SubBandType, resolution: u8) -> core::result::Result<(u16, u16), DecodeError> {
        let n_ll = self.coding_style.parameters.num_decomposition_levels;
        let sb_index: int = match sub_band_type {
            SubBandType::LowLow => 0xFFFF,
            SubBandType::HighLow => 0,
            SubBandType::LowHigh => 1,
            SubBandType::HighHigh => 2,
        };
        let steps = self.quantization_info.step_sizes@;
        let missing = Err(DecodeError::Validation(ValidationError::MissingStepSize));
        match self.quantization_info.quantization_style {
            QuantizationStyle::ScalarDerived => if steps.len() == 0 {
                missing
            } else {
                let e_0 = steps[0].exponent;
                let n_b: int = if resolution == 0 { n_ll as int } else { n_ll + 1 - resolution };
                if e_0 < n_ll || e_0 - n_ll + n_b > u16::MAX {
                    Err(DecodeError::Validation(ValidationError::InvalidExponents))
                } else {
                    Ok(((e_0 - n_ll + n_b) as u16, steps[0].mantissa))
                }
            },
            _ => {
                let i: int = if resolution == 0 { 0 } else { 1 + (resolution - 1) * 3 + sb_index };
                if i < steps.len() {
                    Ok((steps[i].exponent, steps[i].mantissa))
                } else {
                    missing
                }
            },
        }
    }

    pub fn exponent_mantissa(&self, sub_band_type: SubBandType, resolution: u8) -> (r: Result<(u16, u16)>)
        requires
            resolution <= self.spec_num_decomposition_levels() + 1,
        ensures
            r == self.spec_exponent_mantissa(sub_band_type, resolution),
    {
        let n_ll = self.coding_style.parameters.num_decomposition_levels;

        let sb_index: u16 = match sub_band_type {
            // The LL sub-band only occurs at resolution 0, which does not
            // use this index.
            SubBandType::LowLow => u16::MAX,
            SubBandType::HighLow => 0,
            SubBandType::LowHigh => 1,
            SubBandType::HighHigh => 2,
        };

        let step_sizes = &self.quantization_info.step_sizes;
        match self.quantization_info.quantization_style {
            QuantizationStyle::NoQuantization | QuantizationStyle::ScalarExpounded => {
                let idx: usize = if resolution == 0 {
                    0
                } else {
                    1 + (resolution as usize - 1) * 3 + sb_index as usize
                };

                if idx < step_sizes.len() {
                    let s = step_sizes[idx];
                    Ok((s.exponent, s.mantissa))
                } else {
                    Err(DecodeError::Validation(ValidationError::MissingStepSize))
                }
            },
            QuantizationStyle::ScalarDerived => {
                if step_sizes.len() == 0 {
                    return Err(DecodeError::Validation(ValidationError::MissingStepSize));
                }
                let e_0 = step_sizes[0].exponent;
                let mantissa = step_sizes[0].mantissa;
                let n_b: u16 = if resolution == 0 {
                    n_ll as u16
                } else {
                    n_ll as u16 + 1 - resolution as u16
                };

                let exponent = match e_0.checked_sub(n_ll as u16) {
                    Some(e) => match e.checked_add(n_b) {
                        Some(e) => e,
                        None => return Err(DecodeError::Validation(ValidationError::InvalidExponents)),
                    },
                    None => return Err(DecodeError::Validation(ValidationError::InvalidExponents)),
                };

                Ok((exponent, mantissa))
            },
        }
    }

    pub fn wavelet_transform(&self) -> (r: WaveletTransform)
        ensures
            r == self.coding_style.parameters.transformation,
    {
        self.coding_style.parameters.transformation
    }

    pub fn num_resolution_levels(&self) -> (r: u8)
        ensures
            r == self.spec_num_resolution_levels(),
    {
        self.coding_style.parameters.num_resolution_levels
    }

    pub fn num_decomposition_levels(&self) -> (r: u8)
        ensures
            r == self.spec_num_decomposition_levels(),
    {
        self.coding_style.parameters.num_decomposition_levels
    }

    pub fn code_block_style(&self) -> (r: CodeBlockStyle)
        ensures
            r == self.coding_style.parameters.code_block_style,
    {
        self.coding_style.parameters.code_block_style
    }
}

/// A packet header stored in a PPM marker.
pub struct PpmPacket<'a> {
    pub data: &'a [u8],
}

/// The contents of a PPM marker (A.7.4).
pub struct PpmMarkerData<'a> {
    pub sequence_idx: u8,
    pub packets: Vec<PpmPacket<'a>>,
}

/// The packet headers of a PPM segment body `d`, from offset `q` on: each
/// is preceded by its 16-bit length.
pub open spec fn ppm_packets_spec(d: Seq<u8>, q: int) -> Option<Seq<Seq<u8>>>
    decreases d.len() - q,
{
    if q >= d.len() {
        Some(Seq::empty())
    } else if q + 2 > d.len() || q + 2 + u16_at(d, q) > d.len() {
        None
    } else {
        match ppm_packets_spec(d, q + 2 + u16_at(d, q)) {
            Some(rest) => Some(seq![d.subrange(q + 2, q + 2 + u16_at(d, q))] + rest),
            None => None,
        }
    }
}

/// The data of a list of packets.
pub open spec fn ppm_datas(packets: Seq<PpmPacket>) -> Seq<Seq<u8>> {
    packets.map_values(|p: PpmPacket| p.data@)
}

/// A PPM marker as plain values: its sequence index and its packet headers.
pub open spec fn ppm_view(m: PpmMarkerData) -> (int, Seq<Seq<u8>>) {
    (m.sequence_idx as int, ppm_datas(m.packets@))
}

/// The PPM markers as plain values.
pub open spec fn ppm_views(ms: Seq<PpmMarkerData>) -> Seq<(int, Seq<Seq<u8>>)> {
    ms.map_values(|m: PpmMarkerData| ppm_view(m))
}

/// The PPM marker segments among the marker segments `ms` of a main header
/// in `b`, in their order, as plain values.
pub open spec fn ppm_walk(ms: Seq<(u8, int)>, b: Seq<u8>) -> Seq<(int, Seq<Seq<u8>>)>
    decreases ms.len(),
{
    if ms.len() == 0 {
        Seq::empty()
    } else {
        let rest = ppm_walk(ms.drop_last(), b);
        let q = ms.last().1;
        if ms.last().0 == markers::PPM {
            let body = b.subrange(q + 2, q + u16_at(b, q));
            rest.push((body[0] as int, ppm_packets_spec(body, 1).unwrap()))
        } else {
            rest
        }
    }
}

/// PPM marker (A.7.4).
pub fn ppm_marker<'a>(reader: &mut BitReader<'a>) -> (r: Option<PpmMarkerData<'a>>)
    requires
        at_byte(*old(reader)),
    ensures
        at_byte(*final(reader)),
        final(reader).bytes() == old(reader).bytes(),
        ({
            let b = old(reader).bytes();
            let p = old(reader).spec_byte_pos();
            let len = u16_at(b, p) - 2;
            let body = b.subrange(p + 2, p + 2 + len);
            if p + 2 <= b.len() && len >= 1 && p + 2 + len <= b.len() && ppm_packets_spec(body, 1) is Some {
                r matches Some(m) && m.sequence_idx == body[0] && ppm_datas(m.packets@) == ppm_packets_spec(body, 1).unwrap()
                    && advanced(*old(reader), *final(reader), 2 + len)
            } else {
                r is None
            }
        }),
{
    let ghost b = reader.bytes();
    let ghost p = reader.spec_byte_pos();
    let segment_len = match reader.read_u16() {
        Some(v) => match v.checked_sub(2) {
            Some(l) => l as usize,
            None => return None,
        },
        None => return None,
    };
    let ppm_data = match reader.read_bytes(segment_len) {
        Some(d) => d,
        None => return None,
    };
    let ghost body = ppm_data@;
    let mut packets: Vec<PpmPacket<'a>> = Vec::new();

    let mut sub = BitReader::new(ppm_data);
    let sequence_idx = match sub.read_byte() {
        Some(v) => v,
        None => return None,
    };

    // A packed packet header whose length field lies in a later marker
    // segment is not supported.

    while !sub.at_end()
        invariant
            at_byte(sub),
            sub.bytes() == body,
            1 <= sub.spec_byte_pos() <= body.len(),
            at_byte(*reader),
            reader.bytes() == b,
            body == b.subrange(p + 2, p + 2 + segment_len),
            reader.spec_byte_pos() == p + 2 + segment_len,
            b == old(reader).bytes(),
            p == old(reader).spec_byte_pos(),
            segment_len == u16_at(b, p) - 2,
            ppm_packets_spec(body, 1) == match ppm_packets_spec(body, sub.spec_byte_pos()) {
                Some(rest) => Some(ppm_datas(packets@) + rest),
                None => None::<Seq<Seq<u8>>>,
            },
        decreases body.len() - sub.spec_byte_pos(),
    {
        let ghost q = sub.spec_byte_pos();
        let packet_len = match sub.read_u16() {
            Some(v) => v as usize,
            None => return None,
        };
        let data = match sub.read_bytes(packet_len) {
            Some(d) => d,
            None => return None,
        };

        packets.push(PpmPacket { data });
        proof {
            let old_packets = packets@.drop_last();
            assert(ppm_datas(packets@) =~= ppm_datas(old_packets) + seq![data@]);
            match ppm_packets_spec(body, sub.spec_byte_pos()) {
                Some(rest) => {
                    assert(ppm_datas(packets@) + rest =~= ppm_datas(old_packets) + (seq![data@] + rest));
                },
                None => {},
            }
        }
    }
    proof {
        assert(ppm_datas(packets@) + Seq::<Seq<u8>>::empty() =~= ppm_datas(packets@));
    }

    Some(PpmMarkerData { sequence_idx, packets })
}

/// The main header of a codestream.
pub struct Header<'a> {
    pub size_data: SizeData,
    pub global_coding_style: CodingStyleDefault,
    pub component_infos: Vec<ComponentInfo>,
    pub ppm_packets: Vec<PpmPacket<'a>>,
    pub skipped_resolution_levels: u8,
    /// Whether strict mode is enabled for decoding.
    pub strict: bool,
}

impl<'a> Header<'a> {
    /// The properties that `read_header` establishes for a header it
    /// returns.
    pub open spec fn wf(&self) -> bool {
        &&& self.size_data.valid()
        &&& self.component_infos@.len() == self.size_data.component_sizes@.len()
        &&& forall|i: int|
            0 <= i < self.component_infos@.len() ==> (#[trigger] self.component_infos@[i]).wf()
                && self.component_infos@[i].size_info == self.size_data.component_sizes@[i]
                && self.skipped_resolution_levels < self.component_infos@[i].spec_num_resolution_levels()
        &&& 1 <= self.global_coding_style.num_layers <= MAX_LAYER_COUNT
        &&& self.global_coding_style.component_parameters.parameters.wf()
        &&& self.skipped_resolution_levels <= 15
        &&& self.size_data.x_resolution_shrink_factor == pow2(self.skipped_resolution_levels as nat)
        &&& self.size_data.y_resolution_shrink_factor == pow2(self.skipped_resolution_levels as nat)
        &&& forall|i: int| 0 <= i < self.ppm_packets@.len() ==> (#[trigger] self.ppm_packets@[i]).data@.len() > 0
    }
}

/// The result of `validate` for the components from index `i` on: the error
/// of the first component whose step sizes do not suffice.
pub open spec fn validate_spec(infos: Seq<ComponentInfo>, i: int) -> core::result::Result<(), DecodeError>
    decreases infos.len() - i,
{
    if i >= infos.len() {
        Ok(())
    } else if infos[i].quantization_info.step_sizes@.len() == 0 {
        Err(DecodeError::Validation(ValidationError::MissingPrecinctExponents))
    } else if !enough_step_sizes(&infos[i]) {
        Err(DecodeError::Validation(ValidationError::InsufficientExponents))
    } else {
        validate_spec(infos, i + 1)
    }
}

/// Check that every component has enough quantization step sizes.
pub fn validate(header: &Header<'_>) -> (r: Result<()>)
    requires
        forall|i: int| 0 <= i < header.component_infos@.len() ==> (#[trigger] header.component_infos@[i]).coding_style.parameters.num_resolution_levels >= 1,
    ensures
        r == validate_spec(header.component_infos@, 0),
        r is Ok ==> forall|i: int| 0 <= i < header.component_infos@.len() ==> enough_step_sizes(#[trigger] &header.component_infos@[i]),
{
    let infos = &header.component_infos;
    let mut k: usize = 0;
    while k < infos.len()
        invariant
            k <= infos@.len(),
            infos == &header.component_infos,
            forall|i: int| 0 <= i < infos@.len() ==> (#[trigger] infos@[i]).coding_style.parameters.num_resolution_levels >= 1,
            validate_spec(infos@, 0) == validate_spec(infos@, k as int),
            forall|i: int| 0 <= i < k ==> enough_step_sizes(#[trigger] &infos@[i]),
        decreases infos@.len() - k,
    {
        let info = &infos[k];
        let max_resolution_idx = info.coding_style.parameters.num_resolution_levels - 1;
        let quantization_style = info.quantization_info.quantization_style;
        let num_precinct_exponents = info.quantization_info.step_sizes.len();

        if num_precinct_exponents == 0 {
            return Err(DecodeError::Validation(ValidationError::MissingPrecinctExponents));
        } else if quantization_style == QuantizationStyle::NoQuantization || quantization_style
            == QuantizationStyle::ScalarExpounded {
            // See the accesses in the `exponent_mantissa` method. The largest
            // access is 1 + (max_resolution_idx - 1) * 3 + 2.
            if max_resolution_idx == 0 {
                if num_precinct_exponents == 0 {
                    return Err(DecodeError::Validation(ValidationError::InsufficientExponents));
                }
            } else if 1 + (max_resolution_idx as usize - 1) * 3 + 2 >= num_precinct_exponents {
                return Err(DecodeError::Validation(ValidationError::InsufficientExponents));
            }
        }
        k = k + 1;
    }

    Ok(())
}

/// Whether the PPM marker segment at byte offset `q` can be read.
pub open spec fn ppm_ok(b: Seq<u8>, q: int) -> bool {
    let len = u16_at(b, q) - 2;
    q + 2 <= b.len() && len >= 1 && q + 2 + len <= b.len() && ppm_packets_spec(b.subrange(q + 2, q + 2 + len), 1) is Some
}

/// The component that the COC or QCC marker segment at byte offset `q`
/// is for, in an image of `csiz` components.
pub open spec fn component_index_at(b: Seq<u8>, q: int, csiz: u16) -> int {
    if csiz < 257 {
        b[q + 2] as int
    } else {
        u16_at(b, q + 2)
    }
}

/// The number of bytes that the marker segment of marker `m` whose body
/// starts at byte `q` takes when the main header of an image of `csiz`
/// components is read, or the error that reading it gives: COD, COC, QCD
/// and QCC are parsed, a COC or QCC must be for one of the components,
/// RGN, TLM, COM and PPM must be complete, a CRG segment is skipped as far
/// as it can be, the markers 0x30 to 0x3F carry no segment, and the others
/// are not supported.
pub open spec fn main_marker_segment(b: Seq<u8>, q: int, m: u8, csiz: u16) -> core::result::Result<int, DecodeError> {
    let w: int = if csiz < 257 { 1 } else { 2 };
    if m == markers::COD {
        if cod_ok(b, q) {
            Ok(7 + csp_len(b, q + 7, b[q + 2]))
        } else {
            Err(DecodeError::Marker(MarkerError::ParseFailure("COD")))
        }
    } else if m == markers::COC {
        if coc_ok(b, q, csiz) && component_index_at(b, q, csiz) < csiz {
            Ok(3 + w + csp_len(b, q + 3 + w, b[q + 2 + w]))
        } else {
            Err(DecodeError::Marker(MarkerError::ParseFailure("COC")))
        }
    } else if m == markers::QCD {
        match qcd_spec(b, q) {
            Some((_steps, _style, _guard, n)) => Ok(n),
            None => Err(DecodeError::Marker(MarkerError::ParseFailure("QCD"))),
        }
    } else if m == markers::QCC {
        match qcc_spec(b, q, csiz) {
            Some((idx, _steps, _style, _guard, n)) => if idx < csiz {
                Ok(n)
            } else {
                Err(DecodeError::Marker(MarkerError::ParseFailure("QCC")))
            },
            None => Err(DecodeError::Marker(MarkerError::ParseFailure("QCC"))),
        }
    } else if m == markers::RGN {
        if skip_ok(b, q) {
            Ok(u16_at(b, q))
        } else {
            Err(DecodeError::Marker(MarkerError::ParseFailure("RGN")))
        }
    } else if m == markers::TLM {
        if skip_ok(b, q) {
            Ok(u16_at(b, q))
        } else {
            Err(DecodeError::Marker(MarkerError::ParseFailure("TLM")))
        }
    } else if m == markers::COM {
        if skip_ok(b, q) {
            Ok(u16_at(b, q))
        } else {
            Err(DecodeError::Marker(MarkerError::ParseFailure("COM")))
        }
    } else if m == markers::PPM {
        if ppm_ok(b, q) {
            Ok(u16_at(b, q))
        } else {
            Err(DecodeError::Marker(MarkerError::ParseFailure("PPM")))
        }
    } else if m == markers::CRG {
        if skip_ok(b, q) {
            Ok(u16_at(b, q))
        } else if q + 2 <= b.len() {
            Ok(2)
        } else {
            Ok(0)
        }
    } else if 0x30 <= m <= 0x3F {
        Ok(0)
    } else {
        Err(DecodeError::Marker(MarkerError::Unsupported))
    }
}

/// The markers of a main header from byte `q` on up to the first SOT
/// marker, with the offsets of their segments, or the error that reading
/// them gives (A.4).
pub open spec fn main_header_markers(b: Seq<u8>, q: int, csiz: u16) -> core::result::Result<Seq<(u8, int)>, DecodeError>
    decreases b.len() - q,
{
    if !(0 <= q && q + 2 <= b.len() && b[q] == 0xff) {
        Err(DecodeError::Marker(MarkerError::Invalid))
    } else if b[q + 1] == markers::SOT {
        Ok(Seq::empty())
    } else {
        match main_marker_segment(b, q + 2, b[q + 1], csiz) {
            Err(e) => Err(e),
            Ok(n) => if n < 0 || q + 2 + n > b.len() {
                Err(DecodeError::Marker(MarkerError::Invalid))
            } else {
                match main_header_markers(b, q + 2 + n, csiz) {
                    Ok(rest) => Ok(seq![(b[q + 1], q + 2)] + rest),
                    Err(e) => Err(e),
                }
            },
        }
    }
}

/// The offset of the segment of the last marker `m` of `ms`.
pub open spec fn last_marker(ms: Seq<(u8, int)>, m: u8) -> Option<int>
    decreases ms.len(),
{
    if ms.len() == 0 {
        None
    } else if ms.last().0 == m {
        Some(ms.last().1)
    } else {
        last_marker(ms.drop_last(), m)
    }
}

/// The offset of the segment of the last marker `m` of `ms` that is for
/// component `i`.
pub open spec fn last_component_marker(ms: Seq<(u8, int)>, b: Seq<u8>, m: u8, csiz: u16, i: int) -> Option<int>
    decreases ms.len(),
{
    if ms.len() == 0 {
        None
    } else if ms.last().0 == m && component_index_at(b, ms.last().1, csiz) == i {
        Some(ms.last().1)
    } else {
        last_component_marker(ms.drop_last(), b, m, csiz, i)
    }
}

/// `c` holds the COD marker segment at byte offset `q`.
pub open spec fn cod_at(c: CodingStyleDefault, b: Seq<u8>, q: int) -> bool {
    &&& c.component_parameters.flags.raw == b[q + 2]
    &&& Some(c.progression_order) == progression_order_spec(b[q + 3])
    &&& c.num_layers == u16_at(b, q + 4)
    &&& c.mct == (b[q + 6] == 1)
    &&& csp_matches(c.component_parameters.parameters, b, q + 7, b[q + 2])
}

/// The coding style of component `i`: that of its last COC marker
/// segment, with the flags of the COD segment at `cod_q` added, or else
/// that of the COD segment.
pub open spec fn component_coding_at(c: CodingStyleComponent, ms: Seq<(u8, int)>, b: Seq<u8>, csiz: u16, i: int, cod_q: int) -> bool {
    let w: int = if csiz < 257 { 1 } else { 2 };
    match last_component_marker(ms, b, markers::COC, csiz, i) {
        Some(q) => c.flags.raw == (b[q + 2 + w] | b[cod_q + 2]) && csp_matches(c.parameters, b, q + 3 + w, b[q + 2 + w]),
        None => c.flags.raw == b[cod_q + 2] && csp_matches(c.parameters, b, cod_q + 7, b[cod_q + 2]),
    }
}

/// The quantization of component `i`: that of its last QCC marker
/// segment, or else that of the QCD segment at `qcd_q`.
pub open spec fn component_quantization_at(
    qi: QuantizationInfo,
    ms: Seq<(u8, int)>,
    b: Seq<u8>,
    csiz: u16,
    i: int,
    qcd_q: int,
) -> bool {
    match last_component_marker(ms, b, markers::QCC, csiz, i) {
        Some(q) => match qcc_spec(b, q, csiz) {
            Some((_idx, steps, style, guard, _n)) => qi.step_sizes@ == steps && qi.quantization_style == style
                && qi.guard_bits == guard,
            None => false,
        },
        None => match qcd_spec(b, qcd_q) {
            Some((steps, style, guard, _n)) => qi.step_sizes@ == steps && qi.quantization_style == style
                && qi.guard_bits == guard,
            None => false,
        },
    }
}

/// The markers `done` followed by those that `rest` gives, or its error.
pub open spec fn markers_after(
    done: Seq<(u8, int)>,
    rest: core::result::Result<Seq<(u8, int)>, DecodeError>,
) -> core::result::Result<Seq<(u8, int)>, DecodeError> {
    match rest {
        Ok(r) => Ok(done + r),
        Err(e) => Err(e),
    }
}

/// The COD, QCD, COC and QCC values hold what the last of the markers `ms`
/// of each kind, and for each component, say.
pub open spec fn markers_read(
    ms: Seq<(u8, int)>,
    b: Seq<u8>,
    csiz: u16,
    cod: Option<CodingStyleDefault>,
    qcd: Option<QuantizationInfo>,
    cocs: Seq<Option<CodingStyleComponent>>,
    qccs: Seq<Option<QuantizationInfo>>,
) -> bool {
    let w: int = if csiz < 257 { 1 } else { 2 };
    &&& (cod is Some) == (last_marker(ms, markers::COD) is Some)
    &&& (cod matches Some(c) ==> cod_at(c, b, last_marker(ms, markers::COD).unwrap()))
    &&& (qcd is Some) == (last_marker(ms, markers::QCD) is Some)
    &&& (qcd matches Some(q) ==> match qcd_spec(b, last_marker(ms, markers::QCD).unwrap()) {
        Some((steps, style, guard, _n)) => q.step_sizes@ == steps && q.quantization_style == style && q.guard_bits == guard,
        None => false,
    })
    &&& forall|i: int|
        0 <= i < cocs.len() ==> {
            &&& ((#[trigger] cocs[i]) is Some) == (last_component_marker(ms, b, markers::COC, csiz, i) is Some)
            &&& (cocs[i] matches Some(c) ==> {
                let q = last_component_marker(ms, b, markers::COC, csiz, i).unwrap();
                c.flags.raw == b[q + 2 + w] && csp_matches(c.parameters, b, q + 3 + w, b[q + 2 + w])
            })
        }
    &&& forall|i: int|
        0 <= i < qccs.len() ==> {
            &&& ((#[trigger] qccs[i]) is Some) == (last_component_marker(ms, b, markers::QCC, csiz, i) is Some)
            &&& (qccs[i] matches Some(q) ==> match qcc_spec(b, last_component_marker(ms, b, markers::QCC, csiz, i).unwrap(), csiz) {
                Some((_idx, steps, style, guard, _n)) => q.step_sizes@ == steps && q.quantization_style == style
                    && q.guard_bits == guard,
                None => false,
            })
        }
}

/// Reading a marker segment of `n` bytes moves the walk past it.
proof fn lemma_walk_step(b: Seq<u8>, q: int, csiz: u16, done: Seq<(u8, int)>, n: int)
    requires
        0 <= q,
        q + 2 <= b.len(),
        b[q] == 0xff,
        b[q + 1] != markers::SOT,
        main_marker_segment(b, q + 2, b[q + 1], csiz) == Ok::<int, DecodeError>(n),
        0 <= n,
        q + 2 + n <= b.len(),
    ensures
        markers_after(done, main_header_markers(b, q, csiz)) == markers_after(
            done.push((b[q + 1], q + 2)),
            main_header_markers(b, q + 2 + n, csiz),
        ),
{
    match main_header_markers(b, q + 2 + n, csiz) {
        Ok(rest) => {
            assert(done + (seq![(b[q + 1], q + 2)] + rest) =~= done.push((b[q + 1], q + 2)) + rest);
        },
        Err(e) => {},
    }
}

/// Adding a marker at the end: it is the last one of its kind.
proof fn lemma_last_push(ms: Seq<(u8, int)>, x: (u8, int), b: Seq<u8>, csiz: u16)
    ensures
        forall|m: u8| #[trigger] last_marker(ms.push(x), m) == (if x.0 == m { Some(x.1) } else { last_marker(ms, m) }),
        forall|m: u8, i: int|
            #[trigger] last_component_marker(ms.push(x), b, m, csiz, i) == (if x.0 == m && component_index_at(b, x.1, csiz)
                == i {
                Some(x.1)
            } else {
                last_component_marker(ms, b, m, csiz, i)
            }),
{
    assert(ms.push(x).drop_last() =~= ms);
}

/// Read the marker segment of marker `marker` of the main header, for an
/// image of `num_components` components, into the values gathered so far.
#[verifier::rlimit(30)]
fn read_main_marker_segment<'a>(
    marker: u8,
    reader: &mut BitReader<'a>,
    num_components: u16,
    cod: &mut Option<CodingStyleDefault>,
    qcd: &mut Option<QuantizationInfo>,
    cod_components: &mut Vec<Option<CodingStyleComponent>>,
    qcd_components: &mut Vec<Option<QuantizationInfo>>,
    ppm_markers: &mut Vec<PpmMarkerData<'a>>,
    Ghost(done): Ghost<Seq<(u8, int)>>,
) -> (r: Result<()>)
    requires
        at_byte(*old(reader)),
        old(cod_components)@.len() == num_components,
        old(qcd_components)@.len() == num_components,
        *old(cod) matches Some(c) ==> 1 <= c.num_layers <= MAX_LAYER_COUNT && c.component_parameters.parameters.wf(),
        forall|i: int| 0 <= i < old(cod_components)@.len() ==> (#[trigger] old(cod_components)@[i] matches Some(c) ==> c.parameters.wf()),
        markers_read(
            done,
            old(reader).bytes(),
            num_components,
            *old(cod),
            *old(qcd),
            old(cod_components)@,
            old(qcd_components)@,
        ),
        ppm_views(old(ppm_markers)@) == ppm_walk(done, old(reader).bytes()),
    ensures
        at_byte(*final(reader)),
        final(reader).bytes() == old(reader).bytes(),
        final(cod_components)@.len() == num_components,
        final(qcd_components)@.len() == num_components,
        *final(cod) matches Some(c) ==> 1 <= c.num_layers <= MAX_LAYER_COUNT && c.component_parameters.parameters.wf(),
        forall|i: int| 0 <= i < final(cod_components)@.len() ==> (#[trigger] final(cod_components)@[i] matches Some(c) ==> c.parameters.wf()),
        match main_marker_segment(old(reader).bytes(), old(reader).spec_byte_pos(), marker, num_components) {
            Err(e) => r == Err::<(), DecodeError>(e),
            Ok(n) => {
                &&& r is Ok
                &&& final(reader).spec_byte_pos() == old(reader).spec_byte_pos() + n
                &&& markers_read(
                    done.push((marker, old(reader).spec_byte_pos())),
                    old(reader).bytes(),
                    num_components,
                    *final(cod),
                    *final(qcd),
                    final(cod_components)@,
                    final(qcd_components)@,
                )
                &&& ppm_views(final(ppm_markers)@) == ppm_walk(
                    done.push((marker, old(reader).spec_byte_pos())),
                    old(reader).bytes(),
                )
            },
        },
{
    let ghost b = reader.bytes();
    let ghost q = reader.spec_byte_pos();
    proof {
        lemma_last_push(done, (marker, q), b, num_components);
        assert(done.push((marker, q)).drop_last() =~= done);
    }
    if marker == markers::COD {
        *cod = match cod_marker(reader) {
            Some(c) => Some(c),
            None => return Err(DecodeError::Marker(MarkerError::ParseFailure("COD"))),
        };
    } else if marker == markers::COC {
        let (component_index, coc) = match coc_marker(reader, num_components) {
            Some(c) => c,
            None => return Err(DecodeError::Marker(MarkerError::ParseFailure("COC"))),
        };
        if (component_index as usize) < cod_components.len() {
            let ghost before = cod_components@;
            cod_components.set(component_index as usize, Some(coc));
            proof {
                let w: int = if num_components < 257 { 1 } else { 2 };
                let ms = done.push((marker, q));
                assert(component_index_at(b, q, num_components) == component_index as int);
                assert forall|i: int| 0 <= i < cod_components@.len() implies {
                    &&& ((#[trigger] cod_components@[i]) is Some) == (last_component_marker(ms, b, markers::COC, num_components, i) is Some)
                    &&& (cod_components@[i] matches Some(c) ==> {
                        let qq = last_component_marker(ms, b, markers::COC, num_components, i).unwrap();
                        c.flags.raw == b[qq + 2 + w] && csp_matches(c.parameters, b, qq + 3 + w, b[qq + 2 + w])
                    })
                } by {
                    if i != component_index as int {
                        assert(cod_components@[i] == before[i]);
                    }
                }
            }
        } else {
            return Err(DecodeError::Marker(MarkerError::ParseFailure("COC")));
        }
    } else if marker == markers::QCD {
        *qcd = match qcd_marker(reader) {
            Some(q) => Some(q),
            None => return Err(DecodeError::Marker(MarkerError::ParseFailure("QCD"))),
        };
    } else if marker == markers::QCC {
        let (component_index, qcc) = match qcc_marker(reader, num_components) {
            Some(c) => c,
            None => return Err(DecodeError::Marker(MarkerError::ParseFailure("QCC"))),
        };
        if (component_index as usize) < qcd_components.len() {
            let ghost before = qcd_components@;
            qcd_components.set(component_index as usize, Some(qcc));
            proof {
                let ms = done.push((marker, q));
                crate::reader::lemma_be_value_bound(b.subrange(q + 2, q + 4));
                crate::reader::lemma_pow256_two();
                assert(component_index_at(b, q, num_components) == component_index as int);
                assert forall|i: int| 0 <= i < qcd_components@.len() implies {
                    &&& ((#[trigger] qcd_components@[i]) is Some) == (last_component_marker(ms, b, markers::QCC, num_components, i) is Some)
                    &&& (qcd_components@[i] matches Some(qi) ==> match qcc_spec(b, last_component_marker(ms, b, markers::QCC, num_components, i).unwrap(), num_components) {
                        Some((_idx, steps, style, guard, _n)) => qi.step_sizes@ == steps && qi.quantization_style == style
                            && qi.guard_bits == guard,
                        None => false,
                    })
                } by {
                    if i != component_index as int {
                        assert(qcd_components@[i] == before[i]);
                    }
                }
            }
        } else {
            return Err(DecodeError::Marker(MarkerError::ParseFailure("QCC")));
        }
    } else if marker == markers::RGN {
        if rgn_marker(reader).is_none() {
            return Err(DecodeError::Marker(MarkerError::ParseFailure("RGN")));
        }
    } else if marker == markers::TLM {
        if tlm_marker(reader).is_none() {
            return Err(DecodeError::Marker(MarkerError::ParseFailure("TLM")));
        }
    } else if marker == markers::COM {
        if com_marker(reader).is_none() {
            return Err(DecodeError::Marker(MarkerError::ParseFailure("COM")));
        }
    } else if marker == markers::PPM {
        match ppm_marker(reader) {
            Some(m) => {
                let ghost before = ppm_markers@;
                ppm_markers.push(m);
                proof {
                    let ms = done.push((marker, q));
                    assert(ms.drop_last() =~= done);
                    assert(ppm_views(ppm_markers@) =~= ppm_views(before).push(ppm_view(m)));
                }
            },
            None => return Err(DecodeError::Marker(MarkerError::ParseFailure("PPM"))),
        }
    } else if marker == markers::CRG {
        let _ = skip_marker_segment(reader);
    } else if skip_code(marker) {
        // "All markers with the marker code between 0xFF30 and 0xFF3F
        // have no marker segment parameters. They shall be skipped by
        // the decoder."
    } else {
        return Err(DecodeError::Marker(MarkerError::Unsupported));
    }
    Ok(())
}

/// The SIZ marker segment at byte offset `q` can be read and passes the
/// checks of `size_marker`.
pub open spec fn siz_passes(b: Seq<u8>, q: int) -> bool {
    siz_ok(b, q) && exists|s: SizeData| #[trigger] siz_matches(&s, b, q) && siz_check(&s) is None
}

/// Where the markers after the SIZ segment of the main header at byte
/// offset `p` start.
pub open spec fn after_siz(b: Seq<u8>, p: int) -> int {
    p + 2 + 38 + 3 * siz_csiz(b, p + 2)
}

/// The coding styles and quantizations of a header are those of the last
/// COD and QCD marker segments of the markers `ms`, and, for each
/// component, of its last COC and QCC marker segment where it has one.
pub open spec fn header_matches(h: Header, ms: Seq<(u8, int)>, b: Seq<u8>, csiz: u16) -> bool {
    match (last_marker(ms, markers::COD), last_marker(ms, markers::QCD)) {
        (Some(cq), Some(qq)) => {
            &&& cod_at(h.global_coding_style, b, cq)
            &&& forall|i: int|
                0 <= i < h.component_infos@.len() ==> {
                    &&& component_coding_at((#[trigger] h.component_infos@[i]).coding_style, ms, b, csiz, i, cq)
                    &&& component_quantization_at(h.component_infos@[i].quantization_info, ms, b, csiz, i, qq)
                }
        },
        _ => false,
    }
}

/// The marker segments `ms` of a main header hold a COD and a QCD marker
/// segment, and the components that any header they describe has pass
/// validation.
pub open spec fn header_passes(ms: Seq<(u8, int)>, b: Seq<u8>, csiz: u16) -> bool {
    &&& last_marker(ms, markers::COD) is Some
    &&& last_marker(ms, markers::QCD) is Some
    &&& forall|h: Header|
        #[trigger] header_matches(h, ms, b, csiz) && h.component_infos@.len() == csiz ==> validate_spec(
            h.component_infos@,
            0,
        ) is Ok
}

/// Two values that hold one SIZ segment pass or fail its checks alike.
proof fn lemma_siz_check_unique(s1: SizeData, s2: SizeData, b: Seq<u8>, q: int)
    requires
        siz_matches(&s1, b, q),
        siz_matches(&s2, b, q),
    ensures
        siz_check(&s1) == siz_check(&s2),
{
    assert(s1.component_sizes@ == s2.component_sizes@);
}

/// Read the main header, starting at the SIZ marker (A.4).
#[verifier::rlimit(60)]
pub fn read_header<'a>(reader: &mut BitReader<'a>, settings: &DecodeSettings) -> (r: Result<Header<'a>>)
    requires
        at_byte(*old(reader)),
        settings.wf(),
    ensures
        at_byte(*final(reader)),
        final(reader).bytes() == old(reader).bytes(),
        ({
            let b = old(reader).bytes();
            let p = old(reader).spec_byte_pos();
            !(has_bytes(*old(reader), 2) && b[p] == 0xff) ==> r == Err::<Header<'a>, DecodeError>(
                DecodeError::Marker(MarkerError::Invalid),
            )
        }),
        ({
            let b = old(reader).bytes();
            let p = old(reader).spec_byte_pos();
            has_bytes(*old(reader), 2) && b[p] == 0xff && b[p + 1] != markers::SIZ ==> r == Err::<
                Header<'a>,
                DecodeError,
            >(DecodeError::Marker(MarkerError::Expected("SIZ")))
        }),
        r matches Ok(h) ==> {
            let b = old(reader).bytes();
            let p = old(reader).spec_byte_pos();
            &&& h.wf()
            &&& h.strict == settings.strict
            &&& b[p + 1] == markers::SIZ
            &&& siz_ok(b, p + 2)
            &&& h.size_data.reference_grid_width == u32_at(b, p + 6)
            &&& h.size_data.reference_grid_height == u32_at(b, p + 10)
            &&& h.size_data.component_sizes@ == Seq::new(siz_csiz(b, p + 2) as nat, |i: int| siz_component(b, p + 2, i))
            &&& siz_grid_matches(&h.size_data, b, p + 2)
            &&& main_header_markers(b, after_siz(b, p), siz_csiz(b, p + 2) as u16) matches Ok(ms) && ppm_datas(h.ppm_packets@)
                == ppm_upto(ppm_walk(ms, b), 256)
            &&& h.size_data.x_resolution_shrink_factor == pow2(h.skipped_resolution_levels as nat)
            &&& h.size_data.y_resolution_shrink_factor == pow2(h.skipped_resolution_levels as nat)
            &&& h.skipped_resolution_levels == skipped_levels_spec(
                settings.target_resolution,
                ceil_div(
                    h.size_data.reference_grid_width - h.size_data.image_area_x_offset,
                    h.size_data.x_shrink_factor as int,
                ),
                ceil_div(
                    h.size_data.reference_grid_height - h.size_data.image_area_y_offset,
                    h.size_data.y_shrink_factor as int,
                ),
                min_resolution_levels(h.component_infos@),
            )
            &&& has_bytes(*final(reader), 2)
            &&& final(reader).bytes()[final(reader).spec_byte_pos()] == 0xff
            &&& final(reader).bytes()[final(reader).spec_byte_pos() + 1] == markers::SOT
            &&& main_header_markers(b, after_siz(b, p), siz_csiz(b, p + 2) as u16) matches Ok(ms) && header_matches(
                h,
                ms,
                b,
                siz_csiz(b, p + 2) as u16,
            )
        },
        ({
            let b = old(reader).bytes();
            let p = old(reader).spec_byte_pos();
            has_bytes(*old(reader), 2) && b[p] == 0xff && b[p + 1] == markers::SIZ && siz_passes(b, p + 2) ==> match main_header_markers(
                b,
                after_siz(b, p),
                siz_csiz(b, p + 2) as u16,
            ) {
                Err(e) => r == Err::<Header<'a>, DecodeError>(e),
                Ok(ms) => {
                    &&& last_marker(ms, markers::COD) is None ==> r == Err::<Header<'a>, DecodeError>(
                        DecodeError::Marker(MarkerError::Missing("COD")),
                    )
                    &&& last_marker(ms, markers::COD) is Some && last_marker(ms, markers::QCD) is None ==> r == Err::<
                        Header<'a>,
                        DecodeError,
                    >(DecodeError::Marker(MarkerError::Missing("QCD")))
                    &&& header_passes(ms, b, siz_csiz(b, p + 2) as u16) ==> r is Ok
                },
            }
        }),
{
    let ghost b = reader.bytes();
    let ghost p = reader.spec_byte_pos();
    if reader.read_marker()? != markers::SIZ {
        return Err(DecodeError::Marker(MarkerError::Expected("SIZ")));
    }

    let mut size_data = match size_marker(reader) {
        Ok(s) => s,
        Err(e) => {
            proof {
                if siz_passes(b, p + 2) {
                    let s1 = choose|s: SizeData| #[trigger] siz_matches(&s, b, p + 2) && siz_check(&s) is None;
                    let s2 = choose|s: SizeData| #[trigger] siz_matches(&s, b, p + 2) && siz_check(&s) == Some(e);
                    lemma_siz_check_unique(s1, s2, b, p + 2);
                }
            }
            return Err(e);
        },
    };

    let mut cod: Option<CodingStyleDefault> = None;
    let mut qcd: Option<QuantizationInfo> = None;

    proof {
        crate::reader::lemma_be_value_bound(b.subrange(p + 2 + 36, p + 2 + 38));
        crate::reader::lemma_pow256_two();
    }
    let num_components = size_data.component_sizes.len() as u16;
    let mut cod_components: Vec<Option<CodingStyleComponent>> = Vec::new();
    let mut qcd_components: Vec<Option<QuantizationInfo>> = Vec::new();
    let mut k: u16 = 0;
    while k < num_components
        invariant
            k <= num_components,
            cod_components@.len() == k,
            qcd_components@.len() == k,
            forall|i: int| 0 <= i < k ==> (#[trigger] cod_components@[i]) is None,
            forall|i: int| 0 <= i < k ==> (#[trigger] qcd_components@[i]) is None,
        decreases num_components - k,
    {
        cod_components.push(None);
        qcd_components.push(None);
        k = k + 1;
    }
    let mut ppm_markers: Vec<PpmMarkerData<'a>> = Vec::new();
    let ghost q0 = reader.spec_byte_pos();
    let ghost walk = main_header_markers(b, q0, num_components);
    let ghost mut done: Seq<(u8, int)> = Seq::empty();
    proof {
        assert(ppm_views(ppm_markers@) =~= ppm_walk(done, b));
        assert(done + Seq::<(u8, int)>::empty() =~= done);
        assert(markers_after(done, main_header_markers(b, q0, num_components)) =~~= walk) by {
            match main_header_markers(b, q0, num_components) {
                Ok(r) => {
                    assert(done + r =~= r);
                },
                Err(e) => {},
            }
        }
    }

    loop
        invariant
            q0 == after_siz(b, p),
            num_components as int == siz_csiz(b, p + 2),
            walk == main_header_markers(b, q0, num_components),
            walk == markers_after(done, main_header_markers(b, reader.spec_byte_pos(), num_components)),
            markers_read(done, b, num_components, cod, qcd, cod_components@, qcd_components@),
            ppm_views(ppm_markers@) == ppm_walk(done, b),
            b == old(reader).bytes(),
            p == old(reader).spec_byte_pos(),
            has_bytes(*old(reader), 2) && b[p] == 0xff && b[p + 1] == markers::SIZ,
            siz_ok(b, p + 2),
            size_data.valid(),
            siz_matches(&size_data, b, p + 2),
            at_byte(*reader),
            reader.bytes() == b,
            cod_components@.len() == num_components,
            qcd_components@.len() == num_components,
            num_components == size_data.component_sizes@.len(),
            cod matches Some(c) ==> 1 <= c.num_layers <= MAX_LAYER_COUNT && c.component_parameters.parameters.wf(),
            forall|i: int| 0 <= i < cod_components@.len() ==> (#[trigger] cod_components@[i] matches Some(c) ==> c.parameters.wf()),
        ensures
            b == old(reader).bytes(),
            p == old(reader).spec_byte_pos(),
            has_bytes(*old(reader), 2) && b[p] == 0xff && b[p + 1] == markers::SIZ,
            siz_ok(b, p + 2),
            size_data.valid(),
            siz_matches(&size_data, b, p + 2),
            num_components == size_data.component_sizes@.len(),
            at_byte(*reader),
            reader.bytes() == b,
            cod_components@.len() == num_components,
            qcd_components@.len() == num_components,
            cod matches Some(c) ==> 1 <= c.num_layers <= MAX_LAYER_COUNT && c.component_parameters.parameters.wf(),
            forall|i: int| 0 <= i < cod_components@.len() ==> (#[trigger] cod_components@[i] matches Some(c) ==> c.parameters.wf()),
            reader.bytes()[reader.spec_byte_pos()] == 0xff,
            reader.bytes()[reader.spec_byte_pos() + 1] == markers::SOT,
            has_bytes(*reader, 2),
            walk == main_header_markers(b, q0, num_components),
            walk == Ok::<Seq<(u8, int)>, DecodeError>(done),
            markers_read(done, b, num_components, cod, qcd, cod_components@, qcd_components@),
            ppm_views(ppm_markers@) == ppm_walk(done, b),
        decreases b.len() - reader.spec_byte_pos(),
    {
        let ghost q = reader.spec_byte_pos();
        let marker = match reader.peek_marker() {
            Some(m) => m,
            None => {
                proof {
                    assert(main_header_markers(b, q, num_components) == Err::<Seq<(u8, int)>, DecodeError>(
                        DecodeError::Marker(MarkerError::Invalid),
                    ));
                }
                return Err(DecodeError::Marker(MarkerError::Invalid));
            },
        };
        if marker == markers::SOT {
            proof {
                assert(done + Seq::<(u8, int)>::empty() =~= done);
            }
            break;
        }
        let _ = reader.read_marker();
        match read_main_marker_segment(
            marker,
            reader,
            num_components,
            &mut cod,
            &mut qcd,
            &mut cod_components,
            &mut qcd_components,
            &mut ppm_markers,
            Ghost(done),
        ) {
            Ok(()) => {},
            Err(e) => {
                proof {
                    assert(main_header_markers(b, q, num_components) == Err::<Seq<(u8, int)>, DecodeError>(e));
                }
                return Err(e);
            },
        }
        proof {
            let n = reader.spec_byte_pos() - (q + 2);
            assert(main_marker_segment(b, q + 2, marker, num_components) == Ok::<int, DecodeError>(n));
            lemma_walk_step(b, q, num_components, done, n);
            done = done.push((marker, q + 2));
        }
    }

    let cod = match cod {
        Some(c) => c,
        None => return Err(DecodeError::Marker(MarkerError::Missing("COD"))),
    };
    let qcd = match qcd {
        Some(q) => q,
        None => return Err(DecodeError::Marker(MarkerError::Missing("QCD"))),
    };

    let component_infos = merge_component_infos(&size_data, &cod, &qcd, &cod_components, &qcd_components);

    // Components can have different number of resolution levels. In that case, we
    // can only skip as many resolution levels as the component with the smallest
    // number of resolution levels.
    let min_num_resolution_levels = min_num_resolution_levels(&component_infos);
    proof {
        lemma_min_resolution_levels(component_infos@);
    }
    let skipped_resolution_levels = skipped_levels(
        settings.target_resolution,
        size_data.image_width(),
        size_data.image_height(),
        min_num_resolution_levels,
    );

    // If the user defined a maximum resolution level that is lower than the
    // maximum available one, the final image needs to be shrinked further.
    let factor = pow2_u32(skipped_resolution_levels as u32);
    proof {
        lemma_skipped_shrink(&size_data, skipped_resolution_levels);
        assert(size_data.x_resolution_shrink_factor == 1 && size_data.y_resolution_shrink_factor == 1);
        assert(size_data.x_resolution_shrink_factor * factor == factor) by (nonlinear_arith)
            requires size_data.x_resolution_shrink_factor == 1;
        assert(size_data.y_resolution_shrink_factor * factor == factor) by (nonlinear_arith)
            requires size_data.y_resolution_shrink_factor == 1;
    }
    size_data.x_resolution_shrink_factor = size_data.x_resolution_shrink_factor * factor;
    size_data.y_resolution_shrink_factor = size_data.y_resolution_shrink_factor * factor;

    let ppm_packets = collect_ppm_packets(&ppm_markers);

    let header = Header {
        size_data,
        global_coding_style: cod,
        component_infos,
        ppm_packets,
        skipped_resolution_levels,
        strict: settings.strict,
    };

    proof {
        assert(header_matches(header, done, b, num_components));
        assert(header.component_infos@.len() == num_components);
    }
    validate(&header)?;

    proof {
        let h = header;
        assert forall|i: int| 0 <= i < h.component_infos@.len() implies (#[trigger] h.component_infos@[i]).wf()
            && h.component_infos@[i].size_info == h.size_data.component_sizes@[i]
            && h.skipped_resolution_levels < h.component_infos@[i].spec_num_resolution_levels() by {
            assert(enough_step_sizes(&h.component_infos@[i]));
            assert(h.size_data.component_sizes@[i] == h.component_infos@[i].size_info);
            assert(1 <= h.size_data.component_sizes@[i].precision <= BITPLANE_BIT_SIZE);
        }
        assert(h.size_data.valid());
    }

    Ok(header)
}

/// `floor_log2`, with 0 for 0.
pub open spec fn log2_or_zero(x: int) -> int {
    if x <= 0 {
        0
    } else {
        floor_log2(x as nat) as int
    }
}

/// The number of resolution levels to skip for a target resolution: as many
/// halvings as fit in both dimensions, but at most one less than the number
/// of resolution levels.
pub open spec fn skipped_levels_spec(target: Option<(u32, u32)>, width: int, height: int, min_res: int) -> int {
    let base = match target {
        Some((tw, th)) => {
            let wl = log2_or_zero(width / tw as int);
            let hl = log2_or_zero(height / th as int);
            if wl < hl { wl } else { hl }
        },
        None => 0,
    };
    if base < min_res - 1 { base } else { min_res - 1 }
}

/// The smallest number of resolution levels among the components (255 for
/// none).
pub open spec fn min_resolution_levels(infos: Seq<ComponentInfo>) -> int
    decreases infos.len(),
{
    if infos.len() == 0 {
        255
    } else {
        let rest = min_resolution_levels(infos.drop_last());
        let last = infos.last().coding_style.parameters.num_resolution_levels as int;
        if last < rest { last } else { rest }
    }
}

proof fn lemma_min_resolution_levels(infos: Seq<ComponentInfo>)
    ensures
        (forall|i: int| 0 <= i < infos.len() ==> (#[trigger] infos[i]).coding_style.parameters.num_resolution_levels >= 1)
            ==> min_resolution_levels(infos) >= 1,
        forall|i: int| 0 <= i < infos.len() ==> min_resolution_levels(infos) <= (#[trigger] infos[i]).coding_style.parameters.num_resolution_levels,
        min_resolution_levels(infos) <= 255,
    decreases infos.len(),
{
    if infos.len() > 0 {
        lemma_min_resolution_levels(infos.drop_last());
        assert forall|i: int| 0 <= i < infos.len() implies min_resolution_levels(infos) <= (#[trigger] infos[i]).coding_style.parameters.num_resolution_levels by {
            if i < infos.len() - 1 {
                assert(infos[i] == infos.drop_last()[i]);
            }
        }
        if forall|i: int| 0 <= i < infos.len() ==> (#[trigger] infos[i]).coding_style.parameters.num_resolution_levels >= 1 {
            assert forall|i: int| 0 <= i < infos.drop_last().len() implies (#[trigger] infos.drop_last()[i]).coding_style.parameters.num_resolution_levels >= 1 by {
                assert(infos.drop_last()[i] == infos[i]);
            }
            assert(infos[infos.len() - 1] == infos.last());
        }
    }
}

/// The smallest number of resolution levels among the components.
fn min_num_resolution_levels(infos: &Vec<ComponentInfo>) -> (r: u8)
    ensures
        r == min_resolution_levels(infos@),
{
    let mut m: u8 = 255;
    let mut i: usize = 0;
    while i < infos.len()
        invariant
            i <= infos@.len(),
            m == min_resolution_levels(infos@.subrange(0, i as int)),
        decreases infos@.len() - i,
    {
        proof {
            assert(infos@.subrange(0, i + 1).drop_last() =~= infos@.subrange(0, i as int));
        }
        let n = infos[i].coding_style.parameters.num_resolution_levels;
        if n < m {
            m = n;
        }
        i = i + 1;
    }
    proof {
        assert(infos@.subrange(0, i as int) =~= infos@);
    }
    m
}

/// A value below 2^16 has a base-2 logarithm of at most 15.
proof fn lemma_log_below_16(x: nat)
    requires
        1 <= x < 0x10000,
    ensures
        floor_log2(x) <= 15,
{
    crate::math::lemma_floor_log2_pow(x);
    vstd::arithmetic::power2::lemma2_to64();
    if floor_log2(x) > 15 {
        if floor_log2(x) > 16 {
            vstd::arithmetic::power2::lemma_pow2_strictly_increases(16, floor_log2(x));
        }
    }
}

/// The number of resolution levels to skip for the requested target
/// resolution.
fn skipped_levels(target: Option<(u32, u32)>, image_width: u32, image_height: u32, min_res: u8) -> (r: u8)
    requires
        target matches Some((w, h)) ==> w > 0 && h > 0,
        image_width <= MAX_DIMENSIONS,
        image_height <= MAX_DIMENSIONS,
        min_res >= 1,
    ensures
        r == skipped_levels_spec(target, image_width as int, image_height as int, min_res as int),
        r <= 15,
        r < min_res,
{
    let base: u32 = match target {
        Some((target_width, target_height)) => {
            let wq = image_width / target_width;
            let hq = image_height / target_height;
            let width_log = match checked_ilog2(wq) {
                Some(v) => v,
                None => 0,
            };
            let height_log = match checked_ilog2(hq) {
                Some(v) => v,
                None => 0,
            };
            proof {
                if wq > 0 {
                    lemma_log_below_16(wq as nat);
                }
                if hq > 0 {
                    lemma_log_below_16(hq as nat);
                }
            }
            if width_log < height_log {
                width_log
            } else {
                height_log
            }
        },
        None => 0,
    };
    let b = base as u8;
    if b < min_res - 1 {
        b
    } else {
        min_res - 1
    }
}

/// Shrinking by 2^s, for at most 15 skipped levels, keeps the size data
/// valid.
proof fn lemma_skipped_shrink(s: &SizeData, skipped: u8)
    requires
        s.valid(),
        s.x_resolution_shrink_factor == 1,
        s.y_resolution_shrink_factor == 1,
        skipped <= 15,
    ensures
        1 <= s.x_shrink_factor * pow2(skipped as nat) <= u32::MAX,
        1 <= s.y_shrink_factor * pow2(skipped as nat) <= u32::MAX,
        pow2(skipped as nat) >= 1,
        ceil_div(s.reference_grid_width - s.image_area_x_offset, s.x_shrink_factor * pow2(skipped as nat))
            <= MAX_DIMENSIONS,
        ceil_div(s.reference_grid_height - s.image_area_y_offset, s.y_shrink_factor * pow2(skipped as nat))
            <= MAX_DIMENSIONS,
{
    vstd::arithmetic::power2::lemma2_to64();
    vstd::arithmetic::power2::lemma_pow2_pos(skipped as nat);
    if skipped < 15 {
        vstd::arithmetic::power2::lemma_pow2_strictly_increases(skipped as nat, 15);
    }
    let f = pow2(skipped as nat);
    assert(s.x_shrink_factor * f <= 255 * 32768) by (nonlinear_arith)
        requires 1 <= s.x_shrink_factor <= 255, 1 <= f <= 32768;
    assert(s.y_shrink_factor * f <= 255 * 32768) by (nonlinear_arith)
        requires 1 <= s.y_shrink_factor <= 255, 1 <= f <= 32768;
    assert(s.x_shrink_factor <= s.x_shrink_factor * f) by (nonlinear_arith)
        requires 1 <= s.x_shrink_factor, 1 <= f;
    assert(s.y_shrink_factor <= s.y_shrink_factor * f) by (nonlinear_arith)
        requires 1 <= s.y_shrink_factor, 1 <= f;
    lemma_ceil_div_antimono(s.reference_grid_width - s.image_area_x_offset, s.x_shrink_factor as int, s.x_shrink_factor * f);
    lemma_ceil_div_antimono(s.reference_grid_height - s.image_area_y_offset, s.y_shrink_factor as int, s.y_shrink_factor * f);
}

/// Dividing by a larger divisor gives a smaller rounded-up quotient.
pub proof fn lemma_ceil_div_antimono(a: int, d1: int, d2: int)
    requires
        a >= 0,
        0 < d1 <= d2,
    ensures
        ceil_div(a, d2) <= ceil_div(a, d1),
{
    assert((a + d2 - 1) / d2 <= (a + d1 - 1) / d1) by (nonlinear_arith)
        requires a >= 0, 0 < d1 <= d2;
}

/// The coding style and quantization of each component: a COC/QCC marker
/// overrides the defaults of the COD/QCD markers (the flags of a COC marker
/// are combined with those of the COD marker).
fn merge_component_infos(
    size_data: &SizeData,
    cod: &CodingStyleDefault,
    qcd: &QuantizationInfo,
    cod_components: &Vec<Option<CodingStyleComponent>>,
    qcd_components: &Vec<Option<QuantizationInfo>>,
) -> (r: Vec<ComponentInfo>)
    requires
        cod_components@.len() == size_data.component_sizes@.len(),
        qcd_components@.len() == size_data.component_sizes@.len(),
        cod.component_parameters.parameters.wf(),
        forall|i: int| 0 <= i < cod_components@.len() ==> (#[trigger] cod_components@[i] matches Some(c) ==> c.parameters.wf()),
    ensures
        r@.len() == size_data.component_sizes@.len(),
        forall|i: int| 0 <= i < r@.len() ==> {
            &&& (#[trigger] r@[i]).size_info == size_data.component_sizes@[i]
            &&& r@[i].coding_style.parameters.wf()
            &&& match cod_components@[i] {
                Some(c) => r@[i].coding_style.parameters.same(&c.parameters) && r@[i].coding_style.flags.raw
                    == (c.flags.raw | cod.component_parameters.flags.raw),
                None => r@[i].coding_style.same(&cod.component_parameters),
            }
            &&& match qcd_components@[i] {
                Some(q) => r@[i].quantization_info.same(&q),
                None => r@[i].quantization_info.same(qcd),
            }
        },
{
    let mut out: Vec<ComponentInfo> = Vec::new();
    let mut idx: usize = 0;
    while idx < size_data.component_sizes.len()
        invariant
            idx <= size_data.component_sizes@.len(),
            cod_components@.len() == size_data.component_sizes@.len(),
            qcd_components@.len() == size_data.component_sizes@.len(),
            cod.component_parameters.parameters.wf(),
            forall|i: int| 0 <= i < cod_components@.len() ==> (#[trigger] cod_components@[i] matches Some(c) ==> c.parameters.wf()),
            out@.len() == idx,
            forall|i: int| 0 <= i < idx ==> {
                &&& (#[trigger] out@[i]).size_info == size_data.component_sizes@[i]
                &&& out@[i].coding_style.parameters.wf()
                &&& match cod_components@[i] {
                    Some(c) => out@[i].coding_style.parameters.same(&c.parameters) && out@[i].coding_style.flags.raw
                        == (c.flags.raw | cod.component_parameters.flags.raw),
                    None => out@[i].coding_style.same(&cod.component_parameters),
                }
                &&& match qcd_components@[i] {
                    Some(q) => out@[i].quantization_info.same(&q),
                    None => out@[i].quantization_info.same(qcd),
                }
            },
        decreases size_data.component_sizes@.len() - idx,
    {
        let coding_style = match &cod_components[idx] {
            Some(c) => {
                let mut c = c.duplicate();
                c.flags.raw = c.flags.raw | cod.component_parameters.flags.raw;
                c
            },
            None => cod.component_parameters.duplicate(),
        };
        let quantization_info = match &qcd_components[idx] {
            Some(q) => q.duplicate(),
            None => qcd.duplicate(),
        };
        out.push(ComponentInfo { size_info: size_data.component_sizes[idx], coding_style, quantization_info });
        idx = idx + 1;
    }
    out
}

/// The non-empty ones of the first `j` packet headers `ps`, in order.
pub open spec fn nonempty_upto(ps: Seq<Seq<u8>>, j: int) -> Seq<Seq<u8>>
    decreases j,
{
    if j <= 0 {
        Seq::empty()
    } else if ps[j - 1].len() > 0 {
        nonempty_upto(ps, j - 1).push(ps[j - 1])
    } else {
        nonempty_upto(ps, j - 1)
    }
}

/// The non-empty packet headers of the first `m` PPM markers whose
/// sequence index is `key`, in order.
pub open spec fn ppm_key_upto(ms: Seq<(int, Seq<Seq<u8>>)>, key: int, m: int) -> Seq<Seq<u8>>
    decreases m,
{
    if m <= 0 {
        Seq::empty()
    } else if ms[m - 1].0 == key {
        ppm_key_upto(ms, key, m - 1) + nonempty_upto(ms[m - 1].1, ms[m - 1].1.len() as int)
    } else {
        ppm_key_upto(ms, key, m - 1)
    }
}

/// The non-empty packet headers of the PPM markers with a sequence index
/// below `key`: by sequence index, markers with the same index in their
/// order.
pub open spec fn ppm_upto(ms: Seq<(int, Seq<Seq<u8>>)>, key: int) -> Seq<Seq<u8>>
    decreases key,
{
    if key <= 0 {
        Seq::empty()
    } else {
        ppm_upto(ms, key - 1) + ppm_key_upto(ms, key - 1, ms.len() as int)
    }
}

/// The packet headers of all PPM markers, ordered by the markers' sequence
/// index (markers with the same index keep their order), leaving out empty
/// ones.
fn collect_ppm_packets<'a>(markers: &Vec<PpmMarkerData<'a>>) -> (r: Vec<PpmPacket<'a>>)
    ensures
        forall|i: int| 0 <= i < r@.len() ==> (#[trigger] r@[i]).data@.len() > 0,
        ppm_datas(r@) == ppm_upto(ppm_views(markers@), 256),
{
    let mut out: Vec<PpmPacket<'a>> = Vec::new();
    let mut key: u16 = 0;
    proof {
        assert(ppm_datas(out@) =~= ppm_upto(ppm_views(markers@), 0));
    }
    while key < 256
        invariant
            key <= 256,
            forall|i: int| 0 <= i < out@.len() ==> (#[trigger] out@[i]).data@.len() > 0,
            ppm_datas(out@) == ppm_upto(ppm_views(markers@), key as int),
        decreases 256 - key,
    {
        let mut m: usize = 0;
        proof {
            assert(ppm_upto(ppm_views(markers@), key as int) + ppm_key_upto(ppm_views(markers@), key as int, 0) =~= ppm_upto(ppm_views(markers@), key as int));
        }
        while m < markers.len()
            invariant
                key < 256,
                m <= markers@.len(),
                forall|i: int| 0 <= i < out@.len() ==> (#[trigger] out@[i]).data@.len() > 0,
                ppm_datas(out@) == ppm_upto(ppm_views(markers@), key as int) + ppm_key_upto(ppm_views(markers@), key as int, m as int),
            decreases markers@.len() - m,
        {
            let marker = &markers[m];
            let ghost before = ppm_datas(out@);
            proof {
                assert(ppm_views(markers@)[m as int] == ppm_view(*marker));
            }
            if marker.sequence_idx as u16 == key {
                let mut j: usize = 0;
                proof {
                    assert(before + nonempty_upto(ppm_datas(marker.packets@), 0) =~= before);
                }
                while j < marker.packets.len()
                    invariant
                        j <= marker.packets@.len(),
                        forall|i: int| 0 <= i < out@.len() ==> (#[trigger] out@[i]).data@.len() > 0,
                        ppm_datas(out@) == before + nonempty_upto(ppm_datas(marker.packets@), j as int),
                    decreases marker.packets@.len() - j,
                {
                    let data = marker.packets[j].data;
                    let ghost o = out@;
                    if data.len() > 0 {
                        out.push(PpmPacket { data });
                        proof {
                            assert(ppm_datas(out@) =~= ppm_datas(o).push(data@));
                            assert(ppm_datas(marker.packets@)[j as int] == data@);
                        }
                    } else {
                        proof {
                            assert(ppm_datas(marker.packets@)[j as int] == data@);
                        }
                    }
                    j = j + 1;
                }
                proof {
                    assert(ppm_key_upto(ppm_views(markers@), key as int, m + 1) == ppm_key_upto(ppm_views(markers@), key as int, m as int)
                        + nonempty_upto(ppm_datas(marker.packets@), marker.packets@.len() as int));
                    assert(ppm_upto(ppm_views(markers@), key as int) + ppm_key_upto(ppm_views(markers@), key as int, m + 1) =~= ppm_upto(
                        ppm_views(markers@),
                        key as int,
                    ) + ppm_key_upto(ppm_views(markers@), key as int, m as int) + nonempty_upto(
                        ppm_datas(marker.packets@),
                        marker.packets@.len() as int,
                    ));
                }
            }
            m = m + 1;
        }
        key = key + 1;
    }
    out
}

} // verus!
