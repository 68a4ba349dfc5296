//! The index arithmetic of the inverse discrete wavelet transform (Annex
//! F): the periodic symmetric extension of a signal and the sizes of the
//! low-pass and high-pass halves of an interleaved rectangle.
use crate::j2c::blocks::SubBandType;
use crate::j2c::rect::IntRect;
use vstd::prelude::*;

verus! {

/// Part of the `1D_EXTR` procedure, defined in F.3.7: the index that the
/// periodic symmetric extension reads `offset` places left of `idx`, the
/// signal being mirrored at its first sample.
pub fn periodic_symmetric_extension_left(idx: usize, offset: usize) -> (r: usize)
    ensures
        r == (if offset >= idx { offset - idx } else { idx - offset }),
{
    if offset >= idx { offset - idx } else { idx - offset }
}

/// Part of the `1D_EXTR` procedure, defined in F.3.7: the index that the
/// periodic symmetric extension reads `offset` places right of `idx` in a
/// signal of `length` samples, mirrored at its last sample. The mirrored
/// index must not fall before the start.
pub fn periodic_symmetric_extension_right(idx: usize, offset: usize, length: usize) -> (r: usize)
    requires
        idx + offset <= usize::MAX,
        idx + offset >= length ==> idx + offset - length + 2 <= length,
    ensures
        r == (if idx + offset >= length { 2 * length - 2 - idx - offset } else { idx + offset }),
{
    let new_idx = idx + offset;
    if new_idx >= length {
        let overshoot = new_idx - length;
        length - 2 - overshoot
    } else {
        new_idx
    }
}

/// Within a signal of at least two samples, the neighbors that the
/// extension gives for a sample are samples of the signal, and they mirror
/// the signal at its ends: before the first sample lies the second, after
/// the last sample the one before it.
pub proof fn lemma_extension_neighbors(idx: int, length: int)
    requires
        2 <= length,
        0 <= idx < length,
    ensures
        0 <= (if 1 >= idx { 1 - idx } else { idx - 1 }) < length,
        0 <= (if idx + 1 >= length { 2 * length - 2 - idx - 1 } else { idx + 1 }) < length,
        idx == 0 ==> (if 1 >= idx { 1 - idx } else { idx - 1 }) == 1,
        idx == length - 1 ==> (if idx + 1 >= length { 2 * length - 2 - idx - 1 } else { idx + 1 }) == length - 2,
{
}

/// The numbers of low-pass and high-pass samples of the rectangle along
/// each axis (Figure F.8): `ceil(u1/2) - ceil(u0/2)` low-pass and
/// `u1/2 - u0/2` high-pass columns, and the same for the rows.
pub open spec fn band_sizes_spec(rect: IntRect) -> (int, int, int, int) {
    (
        (rect.x1 as int + 1) / 2 - (rect.x0 as int + 1) / 2,
        rect.x1 as int / 2 - rect.x0 as int / 2,
        (rect.y1 as int + 1) / 2 - (rect.y0 as int + 1) / 2,
        rect.y1 as int / 2 - rect.y0 as int / 2,
    )
}

/// The numbers of low-pass and high-pass columns and rows of a rectangle
/// (Figure F.8). Low-pass and high-pass samples together make up the
/// rectangle.
pub fn band_sizes(rect: IntRect) -> (r: (usize, usize, usize, usize))
    requires
        rect.wf(),
    ensures
        (r.0 as int, r.1 as int, r.2 as int, r.3 as int) == band_sizes_spec(rect),
        r.0 + r.1 == rect.spec_width(),
        r.2 + r.3 == rect.spec_height(),
{
    let num_u_low = crate::math::div_ceil(rect.x1, 2) - crate::math::div_ceil(rect.x0, 2);
    let num_u_high = rect.x1 / 2 - rect.x0 / 2;
    let num_v_low = crate::math::div_ceil(rect.y1, 2) - crate::math::div_ceil(rect.y0, 2);
    let num_v_high = rect.y1 / 2 - rect.y0 / 2;
    (num_u_low as usize, num_u_high as usize, num_v_low as usize, num_v_high as usize)
}

/// The logarithm of the gain of a sub-band (Table E.1): the number of
/// high-pass filterings it went through.
pub fn log_gain(sub_band_type: SubBandType) -> (r: u16)
    ensures
        r == match sub_band_type {
            SubBandType::LowLow => 0u16,
            SubBandType::LowHigh | SubBandType::HighLow => 1u16,
            SubBandType::HighHigh => 2u16,
        },
{
    match sub_band_type {
        SubBandType::LowLow => 0,
        SubBandType::LowHigh => 1,
        SubBandType::HighLow => 1,
        SubBandType::HighHigh => 2,
    }
}

} // verus!
