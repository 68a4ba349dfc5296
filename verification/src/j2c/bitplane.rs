//! Bitplane decoding, described in Annex D.
//!
//! JPEG2000 groups the samples of each component into their constituent
//! bit planes and uses a special context-modeling approach to encode the
//! bits using the arithmetic encoder. In this stage, we need to "revert" the
//! context-modeling so that we can extract the magnitudes and signs of each
//! sample.
use crate::j2c::arithmetic_decoder::{ArithmeticDecoder, ArithmeticDecoderContext};
use crate::error::{DecodeError, DecodingError, Result};
use crate::j2c::blocks::{CodeBlock, Layer, Segment, SubBandType};
use crate::j2c::codestream::CodeBlockStyle;
use crate::j2c::decode::{DecompositionStorage, TileDecodeContext};
use crate::j2c::passes::{
    at, cell, cleanup_from, decode_sign, pass_outcome, propagation_step, refinement_step, stripe_end, cleanup_step, cleanup_bit,
    run_length_mode, initial_contexts, clear_zero_coded, coding_passes, decode_coding_pass, segmentation_symbol,
    pass_bit_position, pass_setup, BlockSetup, gather_code_block, gather_from, gather_segment, layer_start,
    nothing_gathered, Gathered, decode_gathered, segments_from, segment_decoder, uses_arithmetic, fresh_plane, mark_significant, mark_zero_coded, neighborhood, or_sign, or_state, propagation_from,
    push_bit, read_bit, read_decoder, refinement_from, sign_context, DecoderState, PassSetup, PlaneState,
};
use crate::reader::BitReader;
use vstd::prelude::*;

verus! {

/// The bit of `s` that records significance.
pub open spec fn state_significant(s: u8) -> bool {
    (s >> 7u8) & 1u8 == 1u8
}

/// The bit of `s` that records a past magnitude refinement.
pub open spec fn state_refined(s: u8) -> bool {
    (s >> 6u8) & 1u8 == 1u8
}

/// The bit of `s` that records a zero coded in the current bitplane's
/// significance propagation pass.
pub open spec fn state_zero_coded(s: u8) -> bool {
    (s >> 5u8) & 1u8 == 1u8
}

/// The bit operations on a coefficient state do what their names say.
pub proof fn lemma_state_bits(s: u8, v: u8)
    by (bit_vector)
    requires
        v < 2,
    ensures
        (((s | 0x80u8) >> 7u8) & 1u8 == 1u8),
        (((s | 0x80u8) >> 6u8) & 1u8 == (s >> 6u8) & 1u8),
        (((s | 0x80u8) >> 5u8) & 1u8 == (s >> 5u8) & 1u8),
        (((s | 0x40u8) >> 6u8) & 1u8 == 1u8),
        (((s | 0x40u8) >> 7u8) & 1u8 == (s >> 7u8) & 1u8),
        (((s | 0x40u8) >> 5u8) & 1u8 == (s >> 5u8) & 1u8),
        ((((s & !0x20u8) | (v << 5u8)) >> 5u8) & 1u8 == v),
        ((((s & !0x20u8) | (v << 5u8)) >> 7u8) & 1u8 == (s >> 7u8) & 1u8),
        ((((s & !0x20u8) | (v << 5u8)) >> 6u8) & 1u8 == (s >> 6u8) & 1u8),
        (s >> 7u8) & 1u8 <= 1,
        (s >> 6u8) & 1u8 <= 1,
        (s >> 5u8) & 1u8 <= 1,
        ((s & 0xA0u8) == 0) == ((s >> 7u8) & 1u8 == 0 && (s >> 5u8) & 1u8 == 0),
        ((s & 0xA0u8) == 0x80u8) == ((s >> 7u8) & 1u8 == 1 && (s >> 5u8) & 1u8 == 0),
        (0u8 >> 7u8) & 1u8 == 0 && (0u8 >> 6u8) & 1u8 == 0 && (0u8 >> 5u8) & 1u8 == 0,
        (1u8 << 5u8) == 0x20u8 && (0u8 << 5u8) == 0u8 && (s & !0x20u8) | 0u8 == s & !0x20u8,
{
}

/// Bit-packed coefficient state (only 3 bits used):
/// - Bit 7: significance state (set when first non-zero bit is encountered)
/// - Bit 6: has had magnitude refinement pass
/// - Bit 5: zero coded in current bitplane's significance propagation pass
#[derive(Copy, Clone)]
pub struct CoefficientState(pub u8);

impl CoefficientState {
    pub open spec fn significant(&self) -> bool {
        state_significant(self.0)
    }

    pub open spec fn refined(&self) -> bool {
        state_refined(self.0)
    }

    pub open spec fn zero_coded(&self) -> bool {
        state_zero_coded(self.0)
    }

    /// The state of a coefficient before decoding.
    pub fn new() -> (r: Self)
        ensures
            r.0 == 0,
            !r.significant(),
            !r.refined(),
            !r.zero_coded(),
    {
        proof {
            lemma_state_bits(0, 0);
        }
        CoefficientState(0)
    }

    pub fn set_significant(&mut self)
        ensures
            final(self).0 == old(self).0 | 0x80u8,
            final(self).significant(),
            final(self).refined() == old(self).refined(),
            final(self).zero_coded() == old(self).zero_coded(),
    {
        proof {
            lemma_state_bits(self.0, 0);
        }
        self.0 = self.0 | 0x80;
    }

    pub fn set_zero_coded(&mut self, value: u8)
        requires
            value < 2,
        ensures
            final(self).0 == (if value == 1 { (old(self).0 & !0x20u8) | 0x20u8 } else { old(self).0 & !0x20u8 }),
            final(self).zero_coded() == (value == 1),
            final(self).significant() == old(self).significant(),
            final(self).refined() == old(self).refined(),
    {
        proof {
            lemma_state_bits(self.0, value);
        }
        self.0 = (self.0 & !0x20u8) | (value << 5u8);
    }

    pub fn set_magnitude_refined(&mut self)
        ensures
            final(self).0 == old(self).0 | 0x40u8,
            final(self).refined(),
            final(self).significant() == old(self).significant(),
            final(self).zero_coded() == old(self).zero_coded(),
    {
        proof {
            lemma_state_bits(self.0, 0);
        }
        self.0 = self.0 | 0x40;
    }

    pub fn is_significant(&self) -> (r: bool)
        ensures
            r == self.significant(),
    {
        self.significance() == 1
    }

    pub fn significance(&self) -> (r: u8)
        ensures
            r == (if self.significant() { 1u8 } else { 0u8 }),
    {
        proof {
            lemma_state_bits(self.0, 0);
        }
        (self.0 >> 7) & 1
    }

    pub fn magnitude_refinement(&self) -> (r: u8)
        ensures
            r == (if self.refined() { 1u8 } else { 0u8 }),
    {
        proof {
            lemma_state_bits(self.0, 0);
        }
        (self.0 >> 6) & 1
    }

    /// Not significant and not zero coded.
    pub fn should_decode_cleanup(&self) -> (r: bool)
        ensures
            r == (!self.significant() && !self.zero_coded()),
    {
        proof {
            lemma_state_bits(self.0, 0);
        }
        self.0 & 0xA0 == 0
    }

    /// Significant and not zero coded.
    pub fn should_decode_refinement(&self) -> (r: bool)
        ensures
            r == (self.significant() && !self.zero_coded()),
    {
        proof {
            lemma_state_bits(self.0, 0);
        }
        self.0 & 0xA0 == 0x80
    }
}

/// The bit operations on a coefficient keep magnitude and sign apart.
pub proof fn lemma_coefficient_bits(x: u32, b: u32, p: u32, s: u32)
    by (bit_vector)
    requires
        b <= 1,
        p < 32,
        s <= 1,
    ensures
        (x | (s << 31u32)) & 0x7FFF_FFFFu32 == x & 0x7FFF_FFFFu32,
        ((x | (s << 31u32)) >> 31u32) & 1u32 == ((x >> 31u32) & 1u32) | s,
        p < 31 ==> ((x | (b << p)) >> 31u32) & 1u32 == (x >> 31u32) & 1u32,
        p < 31 ==> (x | (b << p)) & 0x7FFF_FFFFu32 == (x & 0x7FFF_FFFFu32) | (b << p),
        p == 31 ==> (x | (b << p)) & 0x7FFF_FFFFu32 == x & 0x7FFF_FFFFu32,
        x & !0x8000_0000u32 == x & 0x7FFF_FFFFu32,
        x & 0x7FFF_FFFFu32 < 0x8000_0000u32,
        (x >> 31u32) & 1u32 <= 1,
        (0u32 >> 31u32) & 1u32 == 0 && 0u32 & 0x7FFF_FFFFu32 == 0,
        (x & 0x7FFF_FFFFu32) <= ((x & 0x7FFF_FFFFu32) | (b << p)),
{
}

/// The magnitude and sign of a coefficient: bit 31 holds the sign, the
/// lower bits the magnitude.
#[derive(Copy, Clone)]
pub struct Coefficient(pub u32);

impl Coefficient {
    /// The magnitude bits.
    pub open spec fn magnitude(&self) -> u32 {
        self.0 & 0x7FFF_FFFFu32
    }

    /// The sign bit: 1 for negative.
    pub open spec fn sign_bit(&self) -> u32 {
        (self.0 >> 31u32) & 1u32
    }

    /// The signed value.
    pub open spec fn value(&self) -> int {
        if self.sign_bit() == 1 {
            -(self.magnitude() as int)
        } else {
            self.magnitude() as int
        }
    }

    /// A zero coefficient.
    pub fn new() -> (r: Self)
        ensures
            r.0 == 0,
            r.magnitude() == 0,
            r.sign_bit() == 0,
    {
        proof {
            lemma_coefficient_bits(0, 0, 0, 0);
        }
        Coefficient(0)
    }

    pub fn get(&self) -> (r: i32)
        ensures
            r == self.value(),
    {
        proof {
            lemma_coefficient_bits(self.0, 0, 0, 0);
        }
        let magnitude = (self.0 & !0x8000_0000u32) as i32;
        // Map sign (0 for positive, 1 for negative) to 1, -1.
        if self.sign() == 1 {
            -magnitude
        } else {
            magnitude
        }
    }

    pub fn set_sign(&mut self, sign: u8)
        requires
            sign <= 1,
        ensures
            final(self).0 == old(self).0 | ((sign as u32) << 31u32),
            final(self).magnitude() == old(self).magnitude(),
            final(self).sign_bit() == (old(self).sign_bit() | sign as u32),
    {
        proof {
            lemma_coefficient_bits(self.0, 0, 0, sign as u32);
        }
        self.0 = self.0 | ((sign as u32) << 31u32);
    }

    pub fn sign(&self) -> (r: u32)
        ensures
            r == self.sign_bit(),
            r <= 1,
    {
        proof {
            lemma_coefficient_bits(self.0, 0, 0, 0);
        }
        (self.0 >> 31u32) & 1
    }

    /// Set the bit at `position` when `bit` is 1: a magnitude bit below
    /// position 31.
    pub fn push_bit_at(&mut self, bit: u32, position: u8)
        requires
            bit <= 1,
            position < 32,
        ensures
            final(self).0 == (old(self).0 | (bit << position as u32)),
            position < 31 ==> final(self).magnitude() == (old(self).magnitude() | (bit << position as u32)),
            position < 31 ==> final(self).sign_bit() == old(self).sign_bit(),
            final(self).magnitude() >= old(self).magnitude(),
    {
        proof {
            lemma_coefficient_bits(self.0, bit, position as u32, 0);
        }
        self.0 = self.0 | (bit << position as u32);
    }
}

/// Bit `k` of `n`.
pub open spec fn bit_of(n: u8, k: u8) -> u32 {
    ((n >> k) & 1u8) as u32
}

/// Extracting a bit gives 0 or 1, and masks keep or clear the bits they
/// say.
pub proof fn lemma_neighbor_bits(n: u8)
    by (bit_vector)
    ensures
        (n >> 0u8) & 1u8 <= 1 && (n >> 1u8) & 1u8 <= 1 && (n >> 2u8) & 1u8 <= 1 && (n >> 3u8) & 1u8 <= 1,
        (n >> 4u8) & 1u8 <= 1 && (n >> 5u8) & 1u8 <= 1 && (n >> 6u8) & 1u8 <= 1 && (n >> 7u8) & 1u8 <= 1,
        ((n & 0b1111_0100u8) >> 0u8) & 1u8 == 0 && ((n & 0b1111_0100u8) >> 1u8) & 1u8 == 0
            && ((n & 0b1111_0100u8) >> 3u8) & 1u8 == 0,
        ((n & 0b1111_0100u8) >> 2u8) & 1u8 == (n >> 2u8) & 1u8 && ((n & 0b1111_0100u8) >> 4u8) & 1u8 == (n >> 4u8)
            & 1u8 && ((n & 0b1111_0100u8) >> 6u8) & 1u8 == (n >> 6u8) & 1u8,
        ((n & 0b1111_0100u8) >> 5u8) & 1u8 == (n >> 5u8) & 1u8 && ((n & 0b1111_0100u8) >> 7u8) & 1u8 == (n >> 7u8)
            & 1u8,
        (n == 0) == ((n >> 0u8) & 1u8 == 0 && (n >> 1u8) & 1u8 == 0 && (n >> 2u8) & 1u8 == 0 && (n >> 3u8) & 1u8
            == 0 && (n >> 4u8) & 1u8 == 0 && (n >> 5u8) & 1u8 == 0 && (n >> 6u8) & 1u8 == 0 && (n >> 7u8) & 1u8
            == 0),
        ((n | 0x80u8) >> 7u8) & 1u8 == 1 && ((n | 0x40u8) >> 6u8) & 1u8 == 1 && ((n | 0x20u8) >> 5u8) & 1u8 == 1,
        ((n | 0x10u8) >> 4u8) & 1u8 == 1 && ((n | 0x08u8) >> 3u8) & 1u8 == 1 && ((n | 0x04u8) >> 2u8) & 1u8 == 1,
        ((n | 0x02u8) >> 1u8) & 1u8 == 1 && ((n | 0x01u8) >> 0u8) & 1u8 == 1,
        n & 1u8 == (n >> 0u8) & 1u8,
{
}

/// Store the significances of each neighbor for a specific coefficient.
/// The order from MSB to LSB is as follows:
///
/// top-left, top, top-right, left, bottom-left, right, bottom-right, bottom.
#[derive(Copy, Clone)]
pub struct NeighborSignificances(pub u8);

impl NeighborSignificances {
    /// No neighbor is significant.
    pub fn new() -> (r: Self)
        ensures
            r.0 == 0,
    {
        NeighborSignificances(0)
    }

    pub fn set_top_left(&mut self)
        ensures
            final(self).0 == old(self).0 | 0x80u8,
            bit_of(final(self).0, 7) == 1,
    {
        proof {
            lemma_neighbor_bits(self.0);
        }
        self.0 = self.0 | 0x80;
    }

    pub fn set_top(&mut self)
        ensures
            final(self).0 == old(self).0 | 0x40u8,
            bit_of(final(self).0, 6) == 1,
    {
        proof {
            lemma_neighbor_bits(self.0);
        }
        self.0 = self.0 | 0x40;
    }

    pub fn set_top_right(&mut self)
        ensures
            final(self).0 == old(self).0 | 0x20u8,
            bit_of(final(self).0, 5) == 1,
    {
        proof {
            lemma_neighbor_bits(self.0);
        }
        self.0 = self.0 | 0x20;
    }

    pub fn set_left(&mut self)
        ensures
            final(self).0 == old(self).0 | 0x10u8,
            bit_of(final(self).0, 4) == 1,
    {
        proof {
            lemma_neighbor_bits(self.0);
        }
        self.0 = self.0 | 0x10;
    }

    pub fn set_bottom_left(&mut self)
        ensures
            final(self).0 == old(self).0 | 0x08u8,
            bit_of(final(self).0, 3) == 1,
    {
        proof {
            lemma_neighbor_bits(self.0);
        }
        self.0 = self.0 | 0x08;
    }

    pub fn set_right(&mut self)
        ensures
            final(self).0 == old(self).0 | 0x04u8,
            bit_of(final(self).0, 2) == 1,
    {
        proof {
            lemma_neighbor_bits(self.0);
        }
        self.0 = self.0 | 0x04;
    }

    pub fn set_bottom_right(&mut self)
        ensures
            final(self).0 == old(self).0 | 0x02u8,
            bit_of(final(self).0, 1) == 1,
    {
        proof {
            lemma_neighbor_bits(self.0);
        }
        self.0 = self.0 | 0x02;
    }

    pub fn set_bottom(&mut self)
        ensures
            final(self).0 == old(self).0 | 0x01u8,
            bit_of(final(self).0, 0) == 1,
    {
        proof {
            lemma_neighbor_bits(self.0);
        }
        self.0 = self.0 | 0x01;
    }

    pub fn all(&self) -> (r: u8)
        ensures
            r == self.0,
    {
        self.0
    }

    /// The significances without the three neighbors below, for the
    /// vertically causal context.
    pub fn all_without_bottom(&self) -> (r: u8)
        ensures
            r == self.0 & 0b1111_0100u8,
    {
        self.0 & 0b1111_0100
    }
}

/// The number of horizontal neighbors (left, right) that are significant.
pub open spec fn horizontal_count(n: u8) -> int {
    bit_of(n, 4) + bit_of(n, 2)
}

/// The number of vertical neighbors (top, bottom) that are significant.
pub open spec fn vertical_count(n: u8) -> int {
    bit_of(n, 6) + bit_of(n, 0)
}

/// The number of diagonal neighbors that are significant.
pub open spec fn diagonal_count(n: u8) -> int {
    bit_of(n, 7) + bit_of(n, 5) + bit_of(n, 3) + bit_of(n, 1)
}

/// The context label for zero coding of the LL and LH sub-bands (Table
/// D.1), for `h` horizontal, `v` vertical and `d` diagonal significant
/// neighbors.
pub open spec fn zero_label_ll(h: int, v: int, d: int) -> u8 {
    if h == 2 {
        8
    } else if h == 1 {
        if v >= 1 { 7 } else if d >= 1 { 6 } else { 5 }
    } else {
        if v == 2 { 4 } else if v == 1 { 3 } else if d >= 2 { 2 } else if d == 1 { 1 } else { 0 }
    }
}

/// The context label for zero coding of the HH sub-band (Table D.1).
pub open spec fn zero_label_hh(hv: int, d: int) -> u8 {
    if d >= 3 {
        8
    } else if d == 2 {
        if hv >= 1 { 7 } else { 6 }
    } else if d == 1 {
        if hv >= 2 { 5 } else if hv == 1 { 4 } else { 3 }
    } else {
        if hv >= 2 { 2 } else if hv == 1 { 1 } else { 0 }
    }
}

/// The context label for zero coding (Table D.1) of a coefficient whose
/// neighbor significances are `n`: the HL sub-band swaps the roles of the
/// horizontal and the vertical neighbors.
pub open spec fn zero_coding_label(sub_band_type: SubBandType, n: u8) -> u8 {
    let h = horizontal_count(n);
    let v = vertical_count(n);
    let d = diagonal_count(n);
    match sub_band_type {
        SubBandType::LowLow | SubBandType::LowHigh => zero_label_ll(h, v, d),
        SubBandType::HighLow => zero_label_ll(v, h, d),
        SubBandType::HighHigh => zero_label_hh(h + v, d),
    }
}

/// The context label for zero coding (Table D.1).
pub fn zero_coding_context(sub_band_type: SubBandType, neighbors: u8) -> (r: u8)
    ensures
        r == zero_coding_label(sub_band_type, neighbors),
        r <= 8,
{
    proof {
        lemma_neighbor_bits(neighbors);
    }
    let n = neighbors;
    let h = ((n >> 4) & 1) + ((n >> 2) & 1);
    let v = ((n >> 6) & 1) + (n & 1);
    let d = ((n >> 7) & 1) + ((n >> 5) & 1) + ((n >> 3) & 1) + ((n >> 1) & 1);
    match sub_band_type {
        SubBandType::LowLow | SubBandType::LowHigh => zero_label_ll_exec(h, v, d),
        SubBandType::HighLow => zero_label_ll_exec(v, h, d),
        SubBandType::HighHigh => {
            if d >= 3 {
                8
            } else if d == 2 {
                if h + v >= 1 { 7 } else { 6 }
            } else if d == 1 {
                if h + v >= 2 { 5 } else if h + v == 1 { 4 } else { 3 }
            } else {
                if h + v >= 2 { 2 } else if h + v == 1 { 1 } else { 0 }
            }
        },
    }
}

/// Every neighbor that is significant in `n` is significant in `m` too.
proof fn lemma_neighbors_within(n: u8, m: u8)
    by (bit_vector)
    requires
        n & m == n,
    ensures
        (n >> 0u8) & 1u8 <= (m >> 0u8) & 1u8 && (n >> 1u8) & 1u8 <= (m >> 1u8) & 1u8,
        (n >> 2u8) & 1u8 <= (m >> 2u8) & 1u8 && (n >> 3u8) & 1u8 <= (m >> 3u8) & 1u8,
        (n >> 4u8) & 1u8 <= (m >> 4u8) & 1u8 && (n >> 5u8) & 1u8 <= (m >> 5u8) & 1u8,
        (n >> 6u8) & 1u8 <= (m >> 6u8) & 1u8 && (n >> 7u8) & 1u8 <= (m >> 7u8) & 1u8,
{
}

/// More significant neighbors never give a lower zero coding context
/// (Table D.1): where the neighbors significant in `n` are significant in
/// `m` too, the label for `m` is at least that for `n`, in every
/// sub-band.
pub proof fn lemma_zero_label_monotone(t: SubBandType, n: u8, m: u8)
    requires
        n & m == n,
    ensures
        zero_coding_label(t, n) <= zero_coding_label(t, m),
{
    lemma_neighbors_within(n, m);
    lemma_neighbor_bits(n);
    lemma_neighbor_bits(m);
}

/// A coefficient without significant neighbors, and only such a one, gets
/// zero coding context 0 (Table D.1), in every sub-band.
pub proof fn lemma_zero_label_isolated(t: SubBandType, n: u8)
    ensures
        (zero_coding_label(t, n) == 0) == (n == 0),
{
    lemma_neighbor_bits(n);
}

/// In the LL and LH sub-bands (Table D.1), the significant horizontal
/// neighbors count first: more of them give a higher label, whatever the
/// other neighbors. Without one, the vertical neighbors count before the
/// diagonal ones. One horizontal and at least one vertical neighbor give
/// label 7, whatever the diagonal neighbors.
pub proof fn lemma_zero_label_ll_rows(t: SubBandType, n: u8, m: u8)
    requires
        t is LowLow || t is LowHigh,
    ensures
        horizontal_count(n) > horizontal_count(m) ==> zero_coding_label(t, n) > zero_coding_label(t, m),
        horizontal_count(n) == 0 && horizontal_count(m) == 0 && vertical_count(n) > vertical_count(m)
            ==> zero_coding_label(t, n) > zero_coding_label(t, m),
        horizontal_count(n) == 1 && vertical_count(n) >= 1 ==> zero_coding_label(t, n) == 7,
        horizontal_count(n) == 1 && horizontal_count(m) == 1 && vertical_count(n) >= 1 && vertical_count(m) == 0
            ==> zero_coding_label(t, n) > zero_coding_label(t, m),
{
    lemma_neighbor_bits(n);
    lemma_neighbor_bits(m);
}

/// In the HL sub-band (Table D.1) the vertical neighbors take the place of
/// the horizontal ones: more of them give a higher label, and one vertical
/// and at least one horizontal neighbor give label 7.
pub proof fn lemma_zero_label_hl_rows(n: u8, m: u8)
    ensures
        vertical_count(n) > vertical_count(m) ==> zero_coding_label(SubBandType::HighLow, n) > zero_coding_label(
            SubBandType::HighLow,
            m,
        ),
        vertical_count(n) == 0 && vertical_count(m) == 0 && horizontal_count(n) > horizontal_count(m)
            ==> zero_coding_label(SubBandType::HighLow, n) > zero_coding_label(SubBandType::HighLow, m),
        vertical_count(n) == 1 && horizontal_count(n) >= 1 ==> zero_coding_label(SubBandType::HighLow, n) == 7,
{
    lemma_neighbor_bits(n);
    lemma_neighbor_bits(m);
}

/// In the HH sub-band (Table D.1) the diagonal neighbors count first: up
/// to three, more of them give a higher label, whatever the others; three
/// or more give the highest label, 8.
pub proof fn lemma_zero_label_hh_rows(n: u8, m: u8)
    ensures
        diagonal_count(n) > diagonal_count(m) && diagonal_count(m) < 3 ==> zero_coding_label(SubBandType::HighHigh, n)
            > zero_coding_label(SubBandType::HighHigh, m),
        diagonal_count(n) >= 3 ==> zero_coding_label(SubBandType::HighHigh, n) == 8,
{
    lemma_neighbor_bits(n);
    lemma_neighbor_bits(m);
}

/// Table D.1 for the LL and LH sub-bands.
fn zero_label_ll_exec(h: u8, v: u8, d: u8) -> (r: u8)
    requires
        h <= 2,
        v <= 2,
        d <= 4,
    ensures
        r == zero_label_ll(h as int, v as int, d as int),
{
    if h == 2 {
        8
    } else if h == 1 {
        if v >= 1 { 7 } else if d >= 1 { 6 } else { 5 }
    } else {
        if v == 2 { 4 } else if v == 1 { 3 } else if d >= 2 { 2 } else if d == 1 { 1 } else { 0 }
    }
}

/// The sign contribution of one neighbor (Table D.2): 0 when it is not
/// significant, else 1 for a positive and -1 for a negative sign.
pub open spec fn contribution(significant: bool, sign: u32) -> int {
    if !significant { 0 } else if sign == 1 { -1 } else { 1 }
}

/// The sum of two contributions, clamped to -1..1 (Table D.2).
pub open spec fn clamp_contribution(a: int, b: int) -> int {
    if a + b > 0 { 1 } else if a + b < 0 { -1 } else { 0 }
}

/// The context label and XOR bit for sign coding (Table D.3).
pub open spec fn sign_label(h: int, v: int) -> (u8, u8) {
    if h == 1 {
        if v == 1 { (13, 0) } else if v == 0 { (12, 0) } else { (11, 0) }
    } else if h == 0 {
        if v == 1 { (10, 0) } else if v == 0 { (9, 0) } else { (10, 1) }
    } else {
        if v == 1 { (11, 1) } else if v == 0 { (12, 1) } else { (13, 1) }
    }
}

/// Sign coding (Table D.3) treats opposite signs alike: negating both the
/// horizontal and the vertical contribution keeps the context label and
/// flips the XOR bit, unless both are zero, where the label is 9 and the
/// bit 0; no other contributions give label 9.
pub proof fn lemma_sign_label_symmetric(h: int, v: int)
    requires
        -1 <= h <= 1,
        -1 <= v <= 1,
    ensures
        sign_label(-h, -v).0 == sign_label(h, v).0,
        (h, v) != (0int, 0int) ==> sign_label(-h, -v).1 == 1 - sign_label(h, v).1,
        (sign_label(h, v) == (9u8, 0u8)) == (h == 0 && v == 0),
        sign_label(h, v).0 != 9 || (h == 0 && v == 0),
{
}

/// The context label and XOR bit for sign coding (Table D.3), from the
/// significances and signs of the four direct neighbors.
pub fn sign_coding_context(
    top: (bool, u32),
    left: (bool, u32),
    right: (bool, u32),
    bottom: (bool, u32),
) -> (r: (u8, u8))
    requires
        top.1 <= 1,
        left.1 <= 1,
        right.1 <= 1,
        bottom.1 <= 1,
    ensures
        r == sign_label(
            clamp_contribution(contribution(left.0, left.1), contribution(right.0, right.1)),
            clamp_contribution(contribution(top.0, top.1), contribution(bottom.0, bottom.1)),
        ),
        9 <= r.0 <= 13,
        r.1 <= 1,
{
    let h = clamp_exec(contribution_exec(left), contribution_exec(right));
    let v = clamp_exec(contribution_exec(top), contribution_exec(bottom));
    if h == 1 {
        if v == 1 { (13, 0) } else if v == 0 { (12, 0) } else { (11, 0) }
    } else if h == 0 {
        if v == 1 { (10, 0) } else if v == 0 { (9, 0) } else { (10, 1) }
    } else {
        if v == 1 { (11, 1) } else if v == 0 { (12, 1) } else { (13, 1) }
    }
}

fn contribution_exec(n: (bool, u32)) -> (r: i8)
    ensures
        r == contribution(n.0, n.1),
{
    if !n.0 { 0 } else if n.1 == 1 { -1 } else { 1 }
}

fn clamp_exec(a: i8, b: i8) -> (r: i8)
    requires
        -1 <= a <= 1,
        -1 <= b <= 1,
    ensures
        r == clamp_contribution(a as int, b as int),
{
    if a + b > 0 { 1 } else if a + b < 0 { -1 } else { 0 }
}

/// The context label for magnitude refinement (Table D.4).
pub open spec fn refinement_label(refined: bool, neighbors: u8) -> u8 {
    if refined { 16 } else if neighbors != 0 { 15 } else { 14 }
}

/// The context label for magnitude refinement (Table D.4).
pub fn refinement_context(magnitude_refinement: u8, neighbors: u8) -> (r: u8)
    requires
        magnitude_refinement <= 1,
    ensures
        r == refinement_label(magnitude_refinement == 1, neighbors),
{
    // If magnitude refined, then 16.
    let m1 = magnitude_refinement * 16;
    // Else: If at least one neighbor is significant then 15, else 14.
    let m2 = 14 + if neighbors >= 1 { 1 } else { 0 };
    if m1 >= m2 { m1 } else { m2 }
}

/// The padding around the coefficients of a code-block, so that the
/// coefficients at the border have neighbors too.
pub const COEFFICIENTS_PADDING: u32 = 1;

/// A position in the padded coefficient grid.
#[derive(Copy, Clone)]
pub struct Position {
    // Since we use a padding scheme for bitplane decoding (so that we don't need
    // to special-case the neighbors of border values), these x and y values
    // are always COEFFICIENTS_PADDING more than the actual x and y index.
    pub index_x: u32,
    pub index_y: u32,
}

/// The index of the padded position (`x`, `y`) in a grid `pw` wide.
pub open spec fn grid_index(x: int, y: int, pw: int) -> int {
    x + y * pw
}

/// A position of a padded grid lies inside the grid.
pub proof fn lemma_grid_index(x: int, y: int, pw: int, ph: int)
    requires
        0 <= x < pw,
        0 <= y < ph,
    ensures
        0 <= grid_index(x, y, pw) < pw * ph,
{
    assert(0 <= x + y * pw < pw * ph) by (nonlinear_arith)
        requires 0 <= x < pw, 0 <= y < ph;
}

impl Position {
    /// The position of the coefficient (`x`, `y`) of the code-block.
    pub fn new(x: u32, y: u32) -> (r: Self)
        requires
            x < u32::MAX,
            y < u32::MAX,
        ensures
            r.index_x == x + 1,
            r.index_y == y + 1,
    {
        Self { index_x: x + COEFFICIENTS_PADDING, index_y: y + COEFFICIENTS_PADDING }
    }

    pub fn new_index(x: u32, y: u32) -> (r: Self)
        ensures
            r.index_x == x,
            r.index_y == y,
    {
        Self { index_x: x, index_y: y }
    }

    pub fn left(&self) -> (r: Self)
        requires
            self.index_x >= 1,
        ensures
            r.index_x == self.index_x - 1,
            r.index_y == self.index_y,
    {
        Self::new_index(self.index_x - 1, self.index_y)
    }

    pub fn right(&self) -> (r: Self)
        requires
            self.index_x < u32::MAX,
        ensures
            r.index_x == self.index_x + 1,
            r.index_y == self.index_y,
    {
        Self::new_index(self.index_x + 1, self.index_y)
    }

    pub fn top(&self) -> (r: Self)
        requires
            self.index_y >= 1,
        ensures
            r.index_x == self.index_x,
            r.index_y == self.index_y - 1,
    {
        Self::new_index(self.index_x, self.index_y - 1)
    }

    pub fn bottom(&self) -> (r: Self)
        requires
            self.index_y < u32::MAX,
        ensures
            r.index_x == self.index_x,
            r.index_y == self.index_y + 1,
    {
        Self::new_index(self.index_x, self.index_y + 1)
    }

    /// The real row of the coefficient, without the padding.
    pub fn real_y(&self) -> (r: u32)
        requires
            self.index_y >= 1,
        ensures
            r == self.index_y - 1,
    {
        self.index_y - 1
    }

    /// The index of the position in a grid `padded_width` wide.
    pub fn index(&self, padded_width: u32) -> (r: usize)
        requires
            grid_index(self.index_x as int, self.index_y as int, padded_width as int) <= usize::MAX,
            self.index_y * padded_width <= usize::MAX,
        ensures
            r == grid_index(self.index_x as int, self.index_y as int, padded_width as int),
    {
        self.index_x as usize + self.index_y as usize * padded_width as usize
    }
}

/// A decoder for the bits of a coding pass: the arithmetic decoder, or the
/// raw bits of the arithmetic coding bypass (D.6).
pub enum BitDecoder<'a> {
    Arithmetic(ArithmeticDecoder<'a>),
    /// The raw bits, and whether strict mode is enabled.
    Bypass(BitReader<'a>, bool),
}

impl<'a> BitDecoder<'a> {
    pub open spec fn wf(&self) -> bool {
        match self {
            BitDecoder::Arithmetic(d) => d.wf(),
            BitDecoder::Bypass(r, _) => r.wf(),
        }
    }

    /// A bypass decoder over `data`.
    pub fn new_bypass(data: &'a [u8], strict: bool) -> (r: Self)
        requires
            data@.len() * 8 <= usize::MAX,
        ensures
            r.wf(),
            r.is_bypass(),
            r.state() == DecoderState::Bypass(data@, 0, strict),
    {
        BitDecoder::Bypass(BitReader::new(data), strict)
    }

    pub open spec fn is_bypass(&self) -> bool {
        self is Bypass
    }

    /// Where the decoder stands.
    pub open spec fn state(&self) -> DecoderState {
        match self {
            BitDecoder::Arithmetic(d) => DecoderState::Arithmetic(d.bytes(), d.state()),
            BitDecoder::Bypass(r, strict) => DecoderState::Bypass(r.bytes(), r.pos(), *strict),
        }
    }

    /// Read the next bit. The arithmetic decoder uses (and updates) the
    /// context; the bypass reads a raw bit and, when the data runs out,
    /// yields 1 unless strict mode is enabled.
    pub fn read_bit(&mut self, context: &mut ArithmeticDecoderContext) -> (r: Option<u32>)
        requires
            old(self).wf(),
            old(context).wf(),
        ensures
            final(self).wf(),
            final(context).wf(),
            final(self).is_bypass() == old(self).is_bypass(),
            (final(self).state(), final(context)@, r) == read_decoder(old(self).state(), old(context)@),
            r matches Some(b) ==> b <= 1,
            !old(self).is_bypass() ==> r is Some,
    {
        match self {
            BitDecoder::Arithmetic(d) => Some(d.read_bit(context)),
            BitDecoder::Bypass(reader, strict) => {
                match reader.read_stuffed_bit() {
                    Some(b) => Some(b),
                    None => {
                        if !*strict {
                            // If not in strict mode, just pad with ones. Not sure if
                            // zeroes would be better here, but since the arithmetic decoder
                            // is also padded with 0xFF maybe 1 is the better choice?
                            Some(1)
                        } else {
                            // We have too little data, return `None`.
                            None
                        }
                    },
                }
            },
        }
    }
}

/// The state for decoding the bitplanes of one code-block.
pub struct BitPlaneDecodeContext {
    /// A vector of bit-packed fields for each coefficient in the code-block.
    pub coefficient_states: Vec<CoefficientState>,
    /// The neighbor significances for each coefficient.
    pub neighbor_significances: Vec<NeighborSignificances>,
    /// The magnitude and signs of each coefficient that is successively built
    /// as we advance through the bitplanes.
    pub coefficients: Vec<Coefficient>,
    /// The width of the code-block we are processing.
    pub width: u32,
    /// The width of the code-block we are processing, with padding.
    pub padded_width: u32,
    /// The height of the code-block we are processing.
    pub height: u32,
    /// The code-block style for the current code-block.
    pub style: CodeBlockStyle,
    /// The number of bitplanes (minus implicitly missing bitplanes) to decode.
    pub bitplanes: u8,
    /// Whether strict mode is enabled.
    pub strict: bool,
    /// The maximum number of coding passes to process.
    pub max_coding_passes: u8,
    /// The type of sub-band the current code block belongs to.
    pub sub_band_type: SubBandType,
    /// The arithmetic decoder contexts for each context label.
    pub contexts: [ArithmeticDecoderContext; 19],
    /// The bit position for the current bitplane.
    pub current_bit_position: u8,
}

/// The largest width or height of a code-block.
pub const MAX_CODE_BLOCK_SIZE: u32 = 0x8000;

impl BitPlaneDecodeContext {
    /// What stays fixed during a coding pass.
    pub open spec fn setup(&self) -> PassSetup {
        PassSetup {
            width: self.width as int,
            height: self.height as int,
            padded_width: self.padded_width as int,
            vertically_causal: self.style.vertically_causal_context,
            sub_band_type: self.sub_band_type,
            bit_position: self.current_bit_position,
        }
    }

    /// What stays fixed while the coding passes of a code-block are
    /// decoded.
    pub open spec fn block_setup(&self) -> BlockSetup {
        BlockSetup {
            width: self.width as int,
            height: self.height as int,
            padded_width: self.padded_width as int,
            style: self.style,
            sub_band_type: self.sub_band_type,
            bitplanes: self.bitplanes,
            strict: self.strict,
        }
    }

    /// What a coding pass changes.
    pub open spec fn plane(&self) -> PlaneState {
        PlaneState {
            states: self.coefficient_states@,
            neighbors: self.neighbor_significances@,
            coefficients: self.coefficients@,
            contexts: self.contexts@.map_values(|c: ArithmeticDecoderContext| c@),
        }
    }

    /// The number of entries of the padded grid.
    pub open spec fn grid_len(&self) -> int {
        (self.width + 2) * (self.height + 2)
    }

    /// The grids have the size of the padded code-block and all contexts
    /// are valid.
    pub open spec fn wf(&self) -> bool {
        &&& self.padded_width == self.width + 2
        &&& self.width <= MAX_CODE_BLOCK_SIZE
        &&& self.height <= MAX_CODE_BLOCK_SIZE
        &&& self.coefficient_states@.len() == self.grid_len()
        &&& self.neighbor_significances@.len() == self.grid_len()
        &&& self.coefficients@.len() == self.grid_len()
        &&& forall|i: int| 0 <= i < 19 ==> (#[trigger] self.contexts@[i]).wf()
        &&& self.bitplanes <= 32
        &&& self.max_coding_passes == (if self.bitplanes == 0 { 0 } else { 1 + 3 * (self.bitplanes - 1) })
        &&& self.current_bit_position < 32
    }

    /// The position lies in the padded grid.
    pub open spec fn in_grid(&self, p: Position) -> bool {
        p.index_x <= self.width + 1 && p.index_y <= self.height + 1
    }

    /// The position is that of a coefficient of the code-block.
    pub open spec fn inside(&self, p: Position) -> bool {
        1 <= p.index_x <= self.width && 1 <= p.index_y <= self.height
    }

    /// The index of a position.
    pub open spec fn idx(&self, p: Position) -> int {
        grid_index(p.index_x as int, p.index_y as int, self.padded_width as int)
    }

    /// The fields other than the grids and contexts are unchanged.
    pub open spec fn same_setup(&self, other: &Self) -> bool {
        &&& self.width == other.width
        &&& self.padded_width == other.padded_width
        &&& self.height == other.height
        &&& self.style == other.style
        &&& self.bitplanes == other.bitplanes
        &&& self.strict == other.strict
        &&& self.max_coding_passes == other.max_coding_passes
        &&& self.sub_band_type == other.sub_band_type
    }

    /// What decoding keeps from `self` to `other`: significant coefficients
    /// stay significant and magnitudes only grow.
    pub open spec fn grows_to(&self, other: &Self) -> bool {
        &&& self.same_setup(other)
        &&& forall|i: int|
            0 <= i < self.coefficient_states@.len() ==> ((#[trigger] self.coefficient_states@[i]).significant()
                ==> other.coefficient_states@[i].significant())
        &&& forall|i: int|
            0 <= i < self.coefficients@.len() ==> (#[trigger] self.coefficients@[i]).magnitude()
                <= other.coefficients@[i].magnitude()
    }

    proof fn lemma_grid(&self, p: Position)
        requires
            self.wf(),
            self.in_grid(p),
        ensures
            0 <= self.idx(p) < self.grid_len(),
            p.index_y * self.padded_width <= usize::MAX,
            self.grid_len() <= 0x8002 * 0x8002,
    {
        lemma_grid_index(p.index_x as int, p.index_y as int, self.width + 2, self.height + 2);
        assert(p.index_y * self.padded_width <= (self.height + 1) * (self.width + 2)) by (nonlinear_arith)
            requires p.index_y <= self.height + 1, self.padded_width == self.width + 2;
        assert((self.height + 1) * (self.width + 2) <= 0x8002 * 0x8002) by (nonlinear_arith)
            requires self.height <= 0x8000, self.width <= 0x8000;
        assert(self.grid_len() <= 0x8002 * 0x8002) by (nonlinear_arith)
            requires self.height <= 0x8000, self.width <= 0x8000;
    }

    /// The index of a position of the grid.
    fn index_of(&self, p: Position) -> (r: usize)
        requires
            self.wf(),
            self.in_grid(p),
        ensures
            r == self.idx(p),
            r < self.grid_len(),
    {
        proof {
            self.lemma_grid(p);
        }
        p.index(self.padded_width)
    }

    pub fn is_significant(&self, p: Position) -> (r: bool)
        requires
            self.wf(),
            self.in_grid(p),
        ensures
            r == self.coefficient_states@[self.idx(p)].significant(),
    {
        let i = self.index_of(p);
        self.coefficient_states[i].is_significant()
    }

    pub fn sign(&self, p: Position) -> (r: u8)
        requires
            self.wf(),
            self.in_grid(p),
        ensures
            r == self.coefficients@[self.idx(p)].sign_bit(),
            r <= 1,
    {
        let i = self.index_of(p);
        self.coefficients[i].sign() as u8
    }

    pub fn magnitude_refinement(&self, p: Position) -> (r: u8)
        requires
            self.wf(),
            self.in_grid(p),
        ensures
            r == (if self.coefficient_states@[self.idx(p)].refined() { 1u8 } else { 0u8 }),
    {
        let i = self.index_of(p);
        self.coefficient_states[i].magnitude_refinement()
    }

    pub fn should_decode_cleanup(&self, p: Position) -> (r: bool)
        requires
            self.wf(),
            self.in_grid(p),
        ensures
            r == (!self.coefficient_states@[self.idx(p)].significant() && !self.coefficient_states@[self.idx(
                p,
            )].zero_coded()),
    {
        let i = self.index_of(p);
        self.coefficient_states[i].should_decode_cleanup()
    }

    pub fn should_decode_refinement(&self, p: Position) -> (r: bool)
        requires
            self.wf(),
            self.in_grid(p),
        ensures
            r == (self.coefficient_states@[self.idx(p)].significant() && !self.coefficient_states@[self.idx(
                p,
            )].zero_coded()),
    {
        let i = self.index_of(p);
        self.coefficient_states[i].should_decode_refinement()
    }

    pub fn set_zero_coded(&mut self, p: Position)
        requires
            old(self).wf(),
            old(self).in_grid(p),
        ensures
            final(self).wf(),
            old(self).grows_to(&*final(self)),
            final(self).current_bit_position == old(self).current_bit_position,
            final(self).contexts == old(self).contexts,
            final(self).setup() == old(self).setup(),
            final(self).plane() == mark_zero_coded(old(self).setup(), old(self).plane(), p),
            final(self).coefficient_states@[old(self).idx(p)].zero_coded(),
    {
        let i = self.index_of(p);
        let mut tmp = self.coefficient_states[i];
        tmp.set_zero_coded(1);
        self.coefficient_states.set(i, tmp);
    }

    pub fn set_magnitude_refined(&mut self, p: Position)
        requires
            old(self).wf(),
            old(self).in_grid(p),
        ensures
            final(self).wf(),
            old(self).grows_to(&*final(self)),
            final(self).current_bit_position == old(self).current_bit_position,
            final(self).contexts == old(self).contexts,
            final(self).setup() == old(self).setup(),
            final(self).plane() == or_state(old(self).setup(), old(self).plane(), p, 0x40u8),
            final(self).coefficient_states@[old(self).idx(p)].refined(),
    {
        let i = self.index_of(p);
        let mut tmp = self.coefficient_states[i];
        tmp.set_magnitude_refined();
        self.coefficient_states.set(i, tmp);
    }

    pub fn push_magnitude_bit(&mut self, p: Position, bit: u32)
        requires
            old(self).wf(),
            old(self).in_grid(p),
            bit <= 1,
        ensures
            final(self).wf(),
            old(self).grows_to(&*final(self)),
            final(self).current_bit_position == old(self).current_bit_position,
            final(self).contexts == old(self).contexts,
            final(self).setup() == old(self).setup(),
            bit == 1 ==> final(self).plane() == push_bit(old(self).setup(), old(self).plane(), p),
            final(self).coefficients@[old(self).idx(p)].0 == (old(self).coefficients@[old(self).idx(p)].0 | (bit
                << old(self).current_bit_position as u32)),
    {
        let i = self.index_of(p);
        let pos = self.current_bit_position;
        let mut tmp = self.coefficients[i];
        tmp.push_bit_at(bit, pos);
        self.coefficients.set(i, tmp);
    }

    pub fn set_sign(&mut self, p: Position, sign: u8)
        requires
            old(self).wf(),
            old(self).in_grid(p),
            sign <= 1,
        ensures
            final(self).wf(),
            old(self).grows_to(&*final(self)),
            final(self).current_bit_position == old(self).current_bit_position,
            final(self).contexts == old(self).contexts,
            final(self).setup() == old(self).setup(),
            final(self).plane() == or_sign(old(self).setup(), old(self).plane(), p, sign as u32),
            final(self).coefficients@[old(self).idx(p)].sign_bit() == (old(self).coefficients@[old(self).idx(
                p,
            )].sign_bit() | sign as u32),
    {
        let i = self.index_of(p);
        let mut tmp = self.coefficients[i];
        tmp.set_sign(sign);
        self.coefficients.set(i, tmp);
    }

    /// Mark a coefficient significant and tell its eight neighbors.
    pub fn set_significant(&mut self, p: Position)
        requires
            old(self).wf(),
            old(self).inside(p),
        ensures
            final(self).wf(),
            old(self).grows_to(&*final(self)),
            final(self).current_bit_position == old(self).current_bit_position,
            final(self).contexts == old(self).contexts,
            final(self).setup() == old(self).setup(),
            final(self).plane() == mark_significant(old(self).setup(), old(self).plane(), p),
            final(self).coefficient_states@[old(self).idx(p)].significant(),
    {
        let i = self.index_of(p);
        let mut tmp = self.coefficient_states[i];
        tmp.set_significant();
        self.coefficient_states.set(i, tmp);

        // Update all neighbors so they know this coefficient is significant now.
        let top_left = self.index_of(Position::new_index(p.index_x - 1, p.index_y - 1));
        let mut tmp = self.neighbor_significances[top_left];
        tmp.set_bottom_right();
        self.neighbor_significances.set(top_left, tmp);
        let top = self.index_of(Position::new_index(p.index_x, p.index_y - 1));
        let mut tmp = self.neighbor_significances[top];
        tmp.set_bottom();
        self.neighbor_significances.set(top, tmp);
        let top_right = self.index_of(Position::new_index(p.index_x + 1, p.index_y - 1));
        let mut tmp = self.neighbor_significances[top_right];
        tmp.set_bottom_left();
        self.neighbor_significances.set(top_right, tmp);
        let left = self.index_of(Position::new_index(p.index_x - 1, p.index_y));
        let mut tmp = self.neighbor_significances[left];
        tmp.set_right();
        self.neighbor_significances.set(left, tmp);
        let right = self.index_of(Position::new_index(p.index_x + 1, p.index_y));
        let mut tmp = self.neighbor_significances[right];
        tmp.set_left();
        self.neighbor_significances.set(right, tmp);
        let bottom_left = self.index_of(Position::new_index(p.index_x - 1, p.index_y + 1));
        let mut tmp = self.neighbor_significances[bottom_left];
        tmp.set_top_right();
        self.neighbor_significances.set(bottom_left, tmp);
        let bottom = self.index_of(Position::new_index(p.index_x, p.index_y + 1));
        let mut tmp = self.neighbor_significances[bottom];
        tmp.set_top();
        self.neighbor_significances.set(bottom, tmp);
        let bottom_right = self.index_of(Position::new_index(p.index_x + 1, p.index_y + 1));
        let mut tmp = self.neighbor_significances[bottom_right];
        tmp.set_top_left();
        self.neighbor_significances.set(bottom_right, tmp);
    }

    /// Whether the neighbor below lies in the next stripe of four rows.
    pub fn neighbor_in_next_stripe(&self, p: Position) -> (r: bool)
        requires
            self.wf(),
            self.inside(p),
        ensures
            r == (p.index_y < self.height && p.index_y / 4 > (p.index_y - 1) / 4),
    {
        let neighbor = p.bottom();
        proof {
            vstd::bits::lemma_u32_shr_is_div(p.index_y, 2);
            vstd::bits::lemma_u32_shr_is_div((p.index_y - 1) as u32, 2);
            vstd::arithmetic::power2::lemma2_to64();
        }
        neighbor.real_y() < self.height && (neighbor.real_y() >> 2) > (p.real_y() >> 2)
    }

    /// The significances of the neighbors, without those below in the next
    /// stripe when the vertically causal context is used.
    pub fn neighborhood_significance_states(&self, p: Position) -> (r: u8)
        requires
            self.wf(),
            self.inside(p),
        ensures
            r == neighborhood(self.setup(), self.plane(), p),
            r == (if self.style.vertically_causal_context && p.index_y < self.height && p.index_y / 4 > (p.index_y
                - 1) / 4 {
                self.neighbor_significances@[self.idx(p)].0 & 0b1111_0100u8
            } else {
                self.neighbor_significances@[self.idx(p)].0
            }),
    {
        let i = self.index_of(p);
        let neighbors = self.neighbor_significances[i];
        if self.style.vertically_causal_context && self.neighbor_in_next_stripe(p) {
            neighbors.all_without_bottom()
        } else {
            neighbors.all()
        }
    }

    /// Decode a bit with the context of label `label`.
    pub fn read_with_context(&mut self, label: u8, decoder: &mut BitDecoder) -> (r: Option<u32>)
        requires
            old(self).wf(),
            old(decoder).wf(),
            label < 19,
        ensures
            final(self).wf(),
            final(decoder).wf(),
            final(decoder).is_bypass() == old(decoder).is_bypass(),
            old(self).grows_to(&*final(self)),
            final(self).coefficient_states == old(self).coefficient_states,
            final(self).neighbor_significances == old(self).neighbor_significances,
            final(self).coefficients == old(self).coefficients,
            final(self).current_bit_position == old(self).current_bit_position,
            final(self).setup() == old(self).setup(),
            (final(self).plane(), final(decoder).state(), r) == read_bit(old(self).plane(), old(decoder).state(), label as int),
            r matches Some(b) ==> b <= 1,
            !old(decoder).is_bypass() ==> r is Some,
    {
        let mut c = self.contexts[label as usize];
        let r = decoder.read_bit(&mut c);
        self.contexts[label as usize] = c;
        r
    }

    /// Reset each context to the initial state defined in table D.7.
    pub fn reset_contexts(&mut self)
        requires
            old(self).wf(),
        ensures
            final(self).wf(),
            old(self).grows_to(&*final(self)),
            final(self).coefficient_states == old(self).coefficient_states,
            final(self).neighbor_significances == old(self).neighbor_significances,
            final(self).coefficients == old(self).coefficients,
            final(self).current_bit_position == old(self).current_bit_position,
            forall|i: int| 0 <= i < 19 && i != 0 && i != 17 && i != 18 ==> (#[trigger] final(self).contexts@[i])@ == (
            crate::j2c::arithmetic_decoder::CtxState { index: 0, mps: 0 }),
            final(self).contexts@[0]@ == (crate::j2c::arithmetic_decoder::CtxState { index: 4, mps: 0 }),
            final(self).contexts@[17]@ == (crate::j2c::arithmetic_decoder::CtxState { index: 3, mps: 0 }),
            final(self).contexts@[18]@ == (crate::j2c::arithmetic_decoder::CtxState { index: 46, mps: 0 }),
            final(self).setup() == old(self).setup(),
            final(self).plane() == (PlaneState { contexts: initial_contexts(), ..old(self).plane() }),
    {
        let mut i: usize = 0;
        while i < 19
            invariant
                i <= 19,
                self.wf(),
                old(self).wf(),
                old(self).grows_to(&*self),
                self.coefficient_states == old(self).coefficient_states,
                self.neighbor_significances == old(self).neighbor_significances,
                self.coefficients == old(self).coefficients,
                self.current_bit_position == old(self).current_bit_position,
                forall|j: int| 0 <= j < i ==> (#[trigger] self.contexts@[j])@ == (
                crate::j2c::arithmetic_decoder::CtxState { index: 0, mps: 0 }),
            decreases 19 - i,
        {
            let mut c = self.contexts[i];
            c.reset();
            self.contexts[i] = c;
            i = i + 1;
        }
        let mut c0 = self.contexts[0];
        c0.reset_with_index(4);
        self.contexts[0] = c0;
        let mut c17 = self.contexts[17];
        c17.reset_with_index(3);
        self.contexts[17] = c17;
        let mut c18 = self.contexts[18];
        c18.reset_with_index(46);
        self.contexts[18] = c18;
        proof {
            assert(self.contexts@.map_values(|c: ArithmeticDecoderContext| c@) =~= initial_contexts());
        }
    }

    /// Reset state that is transient for each bitplane that is decoded.
    pub fn reset_for_next_bitplane(&mut self)
        requires
            old(self).wf(),
        ensures
            final(self).wf(),
            old(self).grows_to(&*final(self)),
            final(self).current_bit_position == old(self).current_bit_position,
            final(self).contexts == old(self).contexts,
            forall|i: int| 0 <= i < final(self).coefficient_states@.len() ==> !(#[trigger] final(self).coefficient_states@[i]).zero_coded(),
            final(self).setup() == old(self).setup(),
            final(self).plane() == clear_zero_coded(old(self).plane()),
    {
        let mut i: usize = 0;
        while i < self.coefficient_states.len()
            invariant
                i <= self.coefficient_states@.len(),
                self.wf(),
                old(self).wf(),
                old(self).grows_to(&*self),
                self.current_bit_position == old(self).current_bit_position,
                self.contexts == old(self).contexts,
                forall|j: int| 0 <= j < i ==> !(#[trigger] self.coefficient_states@[j]).zero_coded(),
                self.setup() == old(self).setup(),
                self.neighbor_significances == old(self).neighbor_significances,
                self.coefficients == old(self).coefficients,
                self.coefficient_states@.len() == old(self).coefficient_states@.len(),
                forall|j: int| 0 <= j < i ==> (#[trigger] self.coefficient_states@[j]).0 == old(self).coefficient_states@[j].0 & !0x20u8,
                forall|j: int| i <= j < self.coefficient_states@.len() ==> #[trigger] self.coefficient_states@[j] == old(self).coefficient_states@[j],
            decreases self.coefficient_states@.len() - i,
        {
            let ghost before = *self;
            let mut tmp = self.coefficient_states[i];
            tmp.set_zero_coded(0);
            self.coefficient_states.set(i, tmp);
            proof {
                assert(self.coefficient_states@ == before.coefficient_states@.update(i as int, tmp));
                assert(before.coefficient_states@.len() == old(self).coefficient_states@.len());
                assert forall|j: int| 0 <= j < old(self).coefficient_states@.len() && (
                #[trigger] old(self).coefficient_states@[j]).significant()
                    implies self.coefficient_states@[j].significant() by {
                    assert(old(self).coefficient_states@[j].significant() ==> before.coefficient_states@[j].significant());
                    if j != i {
                        assert(self.coefficient_states@[j] == before.coefficient_states@[j]);
                    } else {
                        assert(before.coefficient_states@[j].significant() ==> self.coefficient_states@[j].significant());
                    }
                }
            }
            i = i + 1;
        }
        proof {
            assert(self.coefficient_states@ =~= old(self).coefficient_states@.map_values(
                |st: CoefficientState| CoefficientState(st.0 & !0x20u8),
            ));
        }
    }
}

/// `grows_to` is transitive.
pub proof fn lemma_grows_trans(a: &BitPlaneDecodeContext, b: &BitPlaneDecodeContext, c: &BitPlaneDecodeContext)
    requires
        a.wf(),
        b.wf(),
        c.wf(),
        a.grows_to(b),
        b.grows_to(c),
    ensures
        a.grows_to(c),
{
    assert forall|i: int| 0 <= i < a.coefficient_states@.len() && (#[trigger] a.coefficient_states@[i]).significant()
        implies c.coefficient_states@[i].significant() by {
        assert(a.coefficient_states@[i].significant() ==> b.coefficient_states@[i].significant());
        assert(b.coefficient_states@[i].significant() ==> c.coefficient_states@[i].significant());
    }
    assert forall|i: int| 0 <= i < a.coefficients@.len() implies (#[trigger] a.coefficients@[i]).magnitude()
        <= c.coefficients@[i].magnitude() by {
        assert(a.coefficients@[i].magnitude() <= b.coefficients@[i].magnitude());
        assert(b.coefficients@[i].magnitude() <= c.coefficients@[i].magnitude());
    }
}

/// Return the context label for zero coding (Section D.3.1).
pub fn context_label_zero_coding(pos: Position, ctx: &BitPlaneDecodeContext) -> (r: u8)
    requires
        ctx.wf(),
        ctx.inside(pos),
    ensures
        r == zero_coding_label(ctx.sub_band_type, neighborhood(ctx.setup(), ctx.plane(), pos)),
        r <= 8,
{
    let neighbors = ctx.neighborhood_significance_states(pos);
    zero_coding_context(ctx.sub_band_type, neighbors)
}

/// Return the context label for magnitude refinement coding (Table D.4).
pub fn context_label_magnitude_refinement_coding(pos: Position, ctx: &BitPlaneDecodeContext) -> (r: u8)
    requires
        ctx.wf(),
        ctx.inside(pos),
    ensures
        r == refinement_label(
            ctx.plane().states[at(ctx.setup(), pos)].refined(),
            neighborhood(ctx.setup(), ctx.plane(), pos),
        ),
        14 <= r <= 16,
{
    let m = ctx.magnitude_refinement(pos);
    let n = ctx.neighborhood_significance_states(pos);
    refinement_context(m, n)
}

/// The context label and XOR bit for the sign of a coefficient (Table D.3).
pub fn context_label_sign_coding(pos: Position, ctx: &BitPlaneDecodeContext) -> (r: (u8, u8))
    requires
        ctx.wf(),
        ctx.inside(pos),
    ensures
        r == sign_context(ctx.setup(), ctx.plane(), pos),
        9 <= r.0 <= 13,
        r.1 <= 1,
{
    // The direct neighbors: top, left, right and bottom.
    let significances = ctx.neighborhood_significance_states(pos);
    proof {
        lemma_neighbor_bits(significances);
    }
    let left_sign = ctx.sign(Position::new_index(pos.index_x - 1, pos.index_y)) as u32;
    let right_sign = ctx.sign(Position::new_index(pos.index_x + 1, pos.index_y)) as u32;
    let top_sign = ctx.sign(Position::new_index(pos.index_x, pos.index_y - 1)) as u32;
    let bottom_sign = if ctx.style.vertically_causal_context && ctx.neighbor_in_next_stripe(pos) {
        0
    } else {
        ctx.sign(Position::new_index(pos.index_x, pos.index_y + 1)) as u32
    };
    sign_coding_context(
        ((significances >> 6) & 1 == 1, top_sign),
        ((significances >> 4) & 1 == 1, left_sign),
        ((significances >> 2) & 1 == 1, right_sign),
        (significances & 1 == 1, bottom_sign),
    )
}

/// Decode a sign bit (Section D.3.2).
pub fn decode_sign_bit(pos: Position, ctx: &mut BitPlaneDecodeContext, decoder: &mut BitDecoder) -> (r: Option<()>)
    requires
        old(ctx).wf(),
        old(ctx).inside(pos),
        old(decoder).wf(),
    ensures
        final(ctx).wf(),
        final(decoder).wf(),
        final(decoder).is_bypass() == old(decoder).is_bypass(),
        old(ctx).grows_to(&*final(ctx)),
        final(ctx).current_bit_position == old(ctx).current_bit_position,
        final(ctx).setup() == old(ctx).setup(),
        (final(ctx).plane(), final(decoder).state(), r is Some) == decode_sign(
            old(ctx).setup(),
            old(ctx).plane(),
            old(decoder).state(),
            pos,
        ),
        !old(decoder).is_bypass() ==> r is Some,
{
    let (ctx_label, xor_bit) = context_label_sign_coding(pos, ctx);
    let bypass = match decoder {
        BitDecoder::Arithmetic(_) => false,
        BitDecoder::Bypass(_, _) => true,
    };
    let ghost c0 = *ctx;
    let bit = match ctx.read_with_context(ctx_label, decoder) {
        Some(b) => b,
        None => return None,
    };
    let sign_bit = if bypass { bit } else { bit ^ xor_bit as u32 };
    proof {
        assert(bit <= 1 && xor_bit <= 1 ==> bit ^ (xor_bit as u32) <= 1) by (bit_vector);
    }
    let ghost c1 = *ctx;
    ctx.set_sign(pos, sign_bit as u8);
    proof {
        lemma_grows_trans(&c0, &c1, &*ctx);
    }
    Some(())
}

/// Perform the significance propagation pass (Section D.3.1).
pub fn significance_propagation_pass(ctx: &mut BitPlaneDecodeContext, decoder: &mut BitDecoder) -> (r: Option<()>)
    requires
        old(ctx).wf(),
        old(decoder).wf(),
    ensures
        final(ctx).wf(),
        final(decoder).wf(),
        final(decoder).is_bypass() == old(decoder).is_bypass(),
        old(ctx).grows_to(&*final(ctx)),
        final(ctx).current_bit_position == old(ctx).current_bit_position,
        final(ctx).setup() == old(ctx).setup(),
        pass_outcome(
            propagation_from(old(ctx).setup(), old(ctx).plane(), old(decoder).state(), 0, 0, 0),
            r,
            final(ctx).plane(),
            final(decoder).state(),
        ),
        !old(decoder).is_bypass() ==> r is Some,
{
    let ghost c0 = *ctx;
    let ghost s0 = ctx.setup();
    let ghost goal = propagation_from(s0, ctx.plane(), decoder.state(), 0, 0, 0);
    let height = ctx.height;
    let width = ctx.width;
    let mut base_row: u32 = 0;
    while base_row < height
        invariant
            ctx.wf(),
            decoder.wf(),
            decoder.is_bypass() == old(decoder).is_bypass(),
            c0.wf(),
            c0 == *old(ctx),
            c0.grows_to(&*ctx),
            height == ctx.height,
            width == ctx.width,
            ctx.current_bit_position == c0.current_bit_position,
            s0 == c0.setup(),
            ctx.setup() == s0,
            goal == propagation_from(s0, c0.plane(), old(decoder).state(), 0, 0, 0),
            goal == propagation_from(s0, ctx.plane(), decoder.state(), base_row as int, 0, base_row as int),
        decreases height + 4 - base_row,
    {
        let mut x: u32 = 0;
        while x < width
            invariant
                ctx.wf(),
                decoder.wf(),
                decoder.is_bypass() == old(decoder).is_bypass(),
                c0.wf(),
                c0 == *old(ctx),
                c0.grows_to(&*ctx),
                height == ctx.height,
                width == ctx.width,
                base_row < height,
                ctx.current_bit_position == c0.current_bit_position,
                ctx.setup() == s0,
                goal == propagation_from(s0, c0.plane(), old(decoder).state(), 0, 0, 0),
                goal == propagation_from(s0, ctx.plane(), decoder.state(), base_row as int, x as int, base_row as int),
            decreases width - x,
        {
            let end = if base_row + 4 <= height { base_row + 4 } else { height };
            let mut y = base_row;
            while y < end
                invariant
                    ctx.wf(),
                    decoder.wf(),
                    decoder.is_bypass() == old(decoder).is_bypass(),
                    c0.wf(),
                    c0 == *old(ctx),
                    c0.grows_to(&*ctx),
                    height == ctx.height,
                    width == ctx.width,
                    base_row < height,
                    x < width,
                    end <= height,
                    end == stripe_end(s0, base_row as int),
                    ctx.current_bit_position == c0.current_bit_position,
                    ctx.setup() == s0,
                    goal == propagation_from(s0, c0.plane(), old(decoder).state(), 0, 0, 0),
                    goal == propagation_from(s0, ctx.plane(), decoder.state(), base_row as int, x as int, y as int),
                decreases end - y,
            {
                let cur_pos = Position::new(x, y);
                let ghost ps0 = ctx.plane();
                let ghost d0 = decoder.state();
                proof {
                    assert(cur_pos == cell(x as int, y as int));
                }
                // "The significance propagation pass only includes bits of coefficients
                // that were insignificant (the significance state has yet to be set)
                // and have a non-zero context."
                if !ctx.is_significant(cur_pos) && ctx.neighborhood_significance_states(cur_pos) != 0 {
                    let ghost c1 = *ctx;
                    let ctx_label = context_label_zero_coding(cur_pos, ctx);
                    let bit = match ctx.read_with_context(ctx_label, decoder) {
                        Some(b) => b,
                        None => {
                            proof {
                                assert(propagation_step(s0, ps0, d0, cur_pos) is None);
                            }
                            return None;
                        },
                    };
                    let ghost c2 = *ctx;
                    ctx.set_zero_coded(cur_pos);
                    proof {
                        lemma_grows_trans(&c0, &c1, &c2);
                        lemma_grows_trans(&c0, &c2, &*ctx);
                    }

                    // "If the value of this bit is 1 then the significance
                    // state is set to 1 and the immediate next bit to be decoded is
                    // the sign bit for the coefficient. Otherwise, the significance
                    // state remains 0."
                    if bit == 1 {
                        let ghost c3 = *ctx;
                        ctx.push_magnitude_bit(cur_pos, bit);
                        let ghost c4 = *ctx;
                        proof {
                            lemma_grows_trans(&c0, &c3, &c4);
                        }
                        match decode_sign_bit(cur_pos, ctx, decoder) {
                            Some(()) => {},
                            None => {
                                proof {
                                    assert(propagation_step(s0, ps0, d0, cur_pos) is None);
                                }
                                return None;
                            },
                        }
                        let ghost c5 = *ctx;
                        proof {
                            lemma_grows_trans(&c0, &c4, &c5);
                        }
                        ctx.set_significant(cur_pos);
                        proof {
                            lemma_grows_trans(&c0, &c5, &*ctx);
                        }
                    }
                }
                proof {
                    assert(propagation_step(s0, ps0, d0, cur_pos) == Some((ctx.plane(), decoder.state())));
                }
                y = y + 1;
            }
            x = x + 1;
        }
        base_row = base_row + 4;
    }
    Some(())
}

/// Perform the magnitude refinement pass, specified in Section D.3.3.
pub fn magnitude_refinement_pass(ctx: &mut BitPlaneDecodeContext, decoder: &mut BitDecoder) -> (r: Option<()>)
    requires
        old(ctx).wf(),
        old(decoder).wf(),
    ensures
        final(ctx).wf(),
        final(decoder).wf(),
        final(decoder).is_bypass() == old(decoder).is_bypass(),
        old(ctx).grows_to(&*final(ctx)),
        final(ctx).current_bit_position == old(ctx).current_bit_position,
        final(ctx).setup() == old(ctx).setup(),
        pass_outcome(
            refinement_from(old(ctx).setup(), old(ctx).plane(), old(decoder).state(), 0, 0, 0),
            r,
            final(ctx).plane(),
            final(decoder).state(),
        ),
        !old(decoder).is_bypass() ==> r is Some,
{
    let ghost c0 = *ctx;
    let ghost s0 = ctx.setup();
    let ghost goal = refinement_from(s0, ctx.plane(), decoder.state(), 0, 0, 0);
    let height = ctx.height;
    let width = ctx.width;
    let mut base_row: u32 = 0;
    while base_row < height
        invariant
            ctx.wf(),
            decoder.wf(),
            decoder.is_bypass() == old(decoder).is_bypass(),
            c0.wf(),
            c0 == *old(ctx),
            c0.grows_to(&*ctx),
            height == ctx.height,
            width == ctx.width,
            ctx.current_bit_position == c0.current_bit_position,
            s0 == c0.setup(),
            ctx.setup() == s0,
            goal == refinement_from(s0, c0.plane(), old(decoder).state(), 0, 0, 0),
            goal == refinement_from(s0, ctx.plane(), decoder.state(), base_row as int, 0, base_row as int),
        decreases height + 4 - base_row,
    {
        let mut x: u32 = 0;
        while x < width
            invariant
                ctx.wf(),
                decoder.wf(),
                decoder.is_bypass() == old(decoder).is_bypass(),
                c0.wf(),
                c0 == *old(ctx),
                c0.grows_to(&*ctx),
                height == ctx.height,
                width == ctx.width,
                base_row < height,
                ctx.current_bit_position == c0.current_bit_position,
                ctx.setup() == s0,
                goal == refinement_from(s0, c0.plane(), old(decoder).state(), 0, 0, 0),
                goal == refinement_from(s0, ctx.plane(), decoder.state(), base_row as int, x as int, base_row as int),
            decreases width - x,
        {
            let end = if base_row + 4 <= height { base_row + 4 } else { height };
            let mut y = base_row;
            while y < end
                invariant
                    ctx.wf(),
                    decoder.wf(),
                    decoder.is_bypass() == old(decoder).is_bypass(),
                    c0.wf(),
                    c0 == *old(ctx),
                    c0.grows_to(&*ctx),
                    height == ctx.height,
                    width == ctx.width,
                    base_row < height,
                    x < width,
                    end <= height,
                    end == stripe_end(s0, base_row as int),
                    ctx.current_bit_position == c0.current_bit_position,
                    ctx.setup() == s0,
                    goal == refinement_from(s0, c0.plane(), old(decoder).state(), 0, 0, 0),
                    goal == refinement_from(s0, ctx.plane(), decoder.state(), base_row as int, x as int, y as int),
                decreases end - y,
            {
                let cur_pos = Position::new(x, y);
                let ghost ps0 = ctx.plane();
                let ghost d0 = decoder.state();
                proof {
                    assert(cur_pos == cell(x as int, y as int));
                }
                if ctx.should_decode_refinement(cur_pos) {
                    let ghost c1 = *ctx;
                    let ctx_label = context_label_magnitude_refinement_coding(cur_pos, ctx);
                    let bit = match ctx.read_with_context(ctx_label, decoder) {
                        Some(b) => b,
                        None => {
                            proof {
                                assert(refinement_step(s0, ps0, d0, cur_pos) is None);
                            }
                            return None;
                        },
                    };
                    let ghost c2 = *ctx;
                    proof {
                        lemma_grows_trans(&c0, &c1, &c2);
                    }
                    if bit == 1 {
                        ctx.push_magnitude_bit(cur_pos, bit);
                        proof {
                            lemma_grows_trans(&c0, &c2, &*ctx);
                        }
                    }
                    let ghost c3 = *ctx;
                    ctx.set_magnitude_refined(cur_pos);
                    proof {
                        lemma_grows_trans(&c0, &c3, &*ctx);
                    }
                }
                proof {
                    assert(refinement_step(s0, ps0, d0, cur_pos) == Some((ctx.plane(), decoder.state())));
                }
                y = y + 1;
            }
            x = x + 1;
        }
        base_row = base_row + 4;
    }
    Some(())
}

/// Perform the cleanup pass, specified in D.3.4.
#[verifier::rlimit(30)]
pub fn cleanup_pass(ctx: &mut BitPlaneDecodeContext, decoder: &mut BitDecoder) -> (r: Option<()>)
    requires
        old(ctx).wf(),
        old(decoder).wf(),
    ensures
        final(ctx).wf(),
        final(decoder).wf(),
        final(decoder).is_bypass() == old(decoder).is_bypass(),
        old(ctx).grows_to(&*final(ctx)),
        final(ctx).current_bit_position == old(ctx).current_bit_position,
        final(ctx).setup() == old(ctx).setup(),
        pass_outcome(
            cleanup_from(old(ctx).setup(), old(ctx).plane(), old(decoder).state(), 0, 0, 0),
            r,
            final(ctx).plane(),
            final(decoder).state(),
        ),
        !old(decoder).is_bypass() ==> r is Some,
{
    let ghost c0 = *ctx;
    let ghost s0 = ctx.setup();
    let ghost goal = cleanup_from(s0, ctx.plane(), decoder.state(), 0, 0, 0);
    let height = ctx.height;
    let width = ctx.width;
    let mut base_row: u32 = 0;
    while base_row < height
        invariant
            ctx.wf(),
            decoder.wf(),
            decoder.is_bypass() == old(decoder).is_bypass(),
            c0.wf(),
            c0 == *old(ctx),
            c0.grows_to(&*ctx),
            height == ctx.height,
            width == ctx.width,
            base_row % 4 == 0,
            ctx.current_bit_position == c0.current_bit_position,
            s0 == c0.setup(),
            ctx.setup() == s0,
            goal == cleanup_from(s0, c0.plane(), old(decoder).state(), 0, 0, 0),
            goal == cleanup_from(s0, ctx.plane(), decoder.state(), base_row as int, 0, base_row as int),
        decreases height + 4 - base_row,
    {
        let mut x: u32 = 0;
        while x < width
            invariant
                ctx.wf(),
                decoder.wf(),
                decoder.is_bypass() == old(decoder).is_bypass(),
                c0.wf(),
                c0 == *old(ctx),
                c0.grows_to(&*ctx),
                height == ctx.height,
                width == ctx.width,
                base_row < height,
                base_row % 4 == 0,
                ctx.current_bit_position == c0.current_bit_position,
                ctx.setup() == s0,
                goal == cleanup_from(s0, c0.plane(), old(decoder).state(), 0, 0, 0),
                goal == cleanup_from(s0, ctx.plane(), decoder.state(), base_row as int, x as int, base_row as int),
            decreases width - x,
        {
            let end = if base_row + 4 <= height { base_row + 4 } else { height };
            let mut y = base_row;
            while y < end
                invariant
                    ctx.wf(),
                    decoder.wf(),
                    decoder.is_bypass() == old(decoder).is_bypass(),
                    c0.wf(),
                    c0 == *old(ctx),
                    c0.grows_to(&*ctx),
                    height == ctx.height,
                    width == ctx.width,
                    base_row < height,
                    x < width,
                    base_row <= y,
                    base_row % 4 == 0,
                    end <= height,
                    end <= base_row + 4,
                    end == stripe_end(s0, base_row as int),
                    ctx.current_bit_position == c0.current_bit_position,
                    ctx.setup() == s0,
                    goal == cleanup_from(s0, c0.plane(), old(decoder).state(), 0, 0, 0),
                    goal == cleanup_from(s0, ctx.plane(), decoder.state(), base_row as int, x as int, y as int),
                decreases end - y,
            {
                let cur_pos = Position::new(x, y);
                let ghost ps0 = ctx.plane();
                let ghost d0 = decoder.state();
                let ghost y0 = y as int;
                proof {
                    assert(cur_pos == cell(x as int, y as int));
                }
                if ctx.should_decode_cleanup(cur_pos) {
                    let use_rl = y % 4 == 0 && height - y >= 4 && ctx.neighborhood_significance_states(cur_pos) == 0
                        && ctx.neighborhood_significance_states(Position::new(x, y + 1)) == 0
                        && ctx.neighborhood_significance_states(Position::new(x, y + 2)) == 0
                        && ctx.neighborhood_significance_states(Position::new(x, y + 3)) == 0;

                    let ghost c1 = *ctx;
                    proof {
                        assert(use_rl == run_length_mode(s0, ps0, x as int, y0));
                        if use_rl {
                            assert(y == base_row) by (nonlinear_arith)
                                requires y % 4 == 0, base_row % 4 == 0, base_row <= y, y < base_row + 4;
                            assert(end == base_row + 4);
                        }
                    }
                    let bit = if use_rl {
                        // "If the four contiguous coefficients in the column being scanned are all decoded
                        // in the cleanup pass and the context label for all is 0 (including context
                        // coefficients from previous magnitude, significance and cleanup passes), then the
                        // unique run-length context is given to the arithmetic decoder along with the bit
                        // stream."
                        let rl_bit = match ctx.read_with_context(17, decoder) {
                            Some(b) => b,
                            None => {
                                proof {
                                    assert(cleanup_step(s0, ps0, d0, x as int, y0) is None);
                                }
                                return None;
                            },
                        };
                        if rl_bit == 0 {
                            // "If the symbol 0 is returned, then all four contiguous coefficients in
                            // the column remain insignificant and are set to zero."
                            proof {
                                lemma_grows_trans(&c0, &c1, &*ctx);
                            }
                            y = y + 3;
                            0
                        } else {
                            // "Otherwise, if the symbol 1 is returned, then at least
                            // one of the four contiguous coefficients in the column is
                            // significant. The next two bits, returned with the
                            // UNIFORM context (index 46 in Table C.2), denote which
                            // coefficient from the top of the column down is the first
                            // to be found significant."
                            let hi = match ctx.read_with_context(18, decoder) {
                                Some(b) => b,
                                None => {
                                    proof {
                                        assert(cleanup_step(s0, ps0, d0, x as int, y0) is None);
                                    }
                                    return None;
                                },
                            };
                            let lo = match ctx.read_with_context(18, decoder) {
                                Some(b) => b,
                                None => {
                                    proof {
                                        assert(cleanup_step(s0, ps0, d0, x as int, y0) is None);
                                    }
                                    return None;
                                },
                            };
                            proof {
                                lemma_grows_trans(&c0, &c1, &*ctx);
                            }
                            let num_zeroes = hi * 2 + lo;
                            y = y + num_zeroes;
                            1
                        }
                    } else {
                        let ctx_label = context_label_zero_coding(cur_pos, ctx);
                        let b = match ctx.read_with_context(ctx_label, decoder) {
                            Some(b) => b,
                            None => {
                                proof {
                                    assert(cleanup_step(s0, ps0, d0, x as int, y0) is None);
                                }
                                return None;
                            },
                        };
                        proof {
                            lemma_grows_trans(&c0, &c1, &*ctx);
                        }
                        b
                    };
                    proof {
                        assert(cleanup_bit(s0, ps0, d0, x as int, y0) == Some((ctx.plane(), decoder.state(), bit, y as int)));
                    }

                    if bit == 1 {
                        let pos = Position::new(x, y);
                        let ghost c3 = *ctx;
                        ctx.push_magnitude_bit(pos, bit);
                        let ghost c4 = *ctx;
                        proof {
                            lemma_grows_trans(&c0, &c3, &c4);
                        }
                        let _ = decode_sign_bit(pos, ctx, decoder);
                        let ghost c5 = *ctx;
                        proof {
                            lemma_grows_trans(&c0, &c4, &c5);
                        }
                        ctx.set_significant(pos);
                        proof {
                            lemma_grows_trans(&c0, &c5, &*ctx);
                        }
                    }
                }
                proof {
                    assert(cleanup_step(s0, ps0, d0, x as int, y0) == Some((ctx.plane(), decoder.state(), y as int)));
                }
                y = y + 1;
            }
            x = x + 1;
        }
        base_row = base_row + 4;
    }
    Some(())
}

/// Decode the coding passes `start..end` of a code-block (Annex D): each
/// bitplane after the first has a significance propagation, a magnitude
/// refinement and a cleanup pass, the first only a cleanup pass.
pub fn handle_coding_passes(start: u8, end: u8, ctx: &mut BitPlaneDecodeContext, decoder: &mut BitDecoder) -> (r: Option<()>)
    requires
        old(ctx).wf(),
        old(decoder).wf(),
        end <= old(ctx).max_coding_passes,
    ensures
        final(ctx).wf(),
        final(decoder).wf(),
        old(ctx).grows_to(&*final(ctx)),
        pass_outcome(
            coding_passes(old(ctx).block_setup(), old(ctx).plane(), old(decoder).state(), start as int, end as int),
            r,
            final(ctx).plane(),
            final(decoder).state(),
        ),
        !old(decoder).is_bypass() && !old(ctx).strict ==> r is Some,
{
    let ghost c0 = *ctx;
    let ghost b0 = ctx.block_setup();
    let ghost goal = coding_passes(b0, ctx.plane(), decoder.state(), start as int, end as int);
    let reset_context_probabilities = ctx.style.reset_context_probabilities;
    let mut coding_pass = start;
    while coding_pass < end
        invariant
            ctx.wf(),
            decoder.wf(),
            decoder.is_bypass() == old(decoder).is_bypass(),
            c0.wf(),
            c0 == *old(ctx),
            c0.grows_to(&*ctx),
            end <= ctx.max_coding_passes,
            reset_context_probabilities == ctx.style.reset_context_probabilities,
            b0 == c0.block_setup(),
            goal == coding_passes(b0, c0.plane(), old(decoder).state(), start as int, end as int),
            goal == coding_passes(b0, ctx.plane(), decoder.state(), coding_pass as int, end as int),
        decreases end - coding_pass,
    {
        let ghost ps0 = ctx.plane();
        let ghost d0 = decoder.state();
        let current_bitplane = (coding_pass + 2) / 3;
        proof {
            assert(current_bitplane <= ctx.bitplanes - 1) by (nonlinear_arith)
                requires
                    current_bitplane == (coding_pass + 2) / 3,
                    coding_pass < ctx.max_coding_passes,
                    ctx.max_coding_passes == (if ctx.bitplanes == 0 { 0 } else { 1 + 3 * (ctx.bitplanes - 1) }),
            ;
        }
        ctx.current_bit_position = ctx.bitplanes - 1 - current_bitplane;
        let ghost c1 = *ctx;
        proof {
            reveal(decode_coding_pass);
            assert(ctx.setup() == pass_setup(b0, coding_pass as int));
            assert(ctx.plane() == ps0);
        }

        // The first bitplane only has a cleanup pass, all other bitplanes
        // are in the order SPP -> MRR -> C.
        let kind = coding_pass % 3;
        if kind == 0 {
            let pass = cleanup_pass(ctx, decoder);
            proof {
                lemma_grows_trans(&c0, &c1, &*ctx);
            }
            if pass.is_none() {
                proof {
                    assert(decode_coding_pass(b0, ps0, d0, coding_pass as int) is None);
                }
                return None;
            }
            let ghost c2 = *ctx;
            proof {
                lemma_grows_trans(&c0, &c1, &c2);
            }
            if ctx.style.segmentation_symbols {
                let b0 = ctx.read_with_context(18, decoder);
                let b1 = ctx.read_with_context(18, decoder);
                let b2 = ctx.read_with_context(18, decoder);
                let b3 = ctx.read_with_context(18, decoder);
                proof {
                    lemma_grows_trans(&c0, &c2, &*ctx);
                }
                let ok = match (b0, b1, b2, b3) {
                    (Some(b0), Some(b1), Some(b2), Some(b3)) => b0 == 1 && b1 == 0 && b2 == 1 && b3 == 0,
                    _ => false,
                };
                let complete = b0.is_some() && b1.is_some() && b2.is_some() && b3.is_some();
                if !complete {
                    return None;
                }
                if !ok && ctx.strict {
                    return None;
                }
            }
            let ghost c3 = *ctx;
            ctx.reset_for_next_bitplane();
            proof {
                lemma_grows_trans(&c0, &c3, &*ctx);
            }
        } else if kind == 1 {
            let pass = significance_propagation_pass(ctx, decoder);
            proof {
                lemma_grows_trans(&c0, &c1, &*ctx);
            }
            if pass.is_none() {
                return None;
            }
            proof {
                lemma_grows_trans(&c0, &c1, &*ctx);
            }
        } else {
            let pass = magnitude_refinement_pass(ctx, decoder);
            proof {
                lemma_grows_trans(&c0, &c1, &*ctx);
            }
            if pass.is_none() {
                return None;
            }
            proof {
                lemma_grows_trans(&c0, &c1, &*ctx);
            }
        }
        proof {
            assert(decode_coding_pass(b0, ps0, d0, coding_pass as int) == Some((ctx.plane(), decoder.state())));
        }

        if reset_context_probabilities {
            let ghost c4 = *ctx;
            ctx.reset_contexts();
            proof {
                lemma_grows_trans(&c0, &c4, &*ctx);
            }
        }
        coding_pass = coding_pass + 1;
    }
    Some(())
}

/// The number of coding passes of `bitplanes` bitplanes: one cleanup pass
/// for the first, three passes for every other.
pub open spec fn max_passes(bitplanes: int) -> int {
    if bitplanes <= 0 { 0 } else { 1 + 3 * (bitplanes - 1) }
}

impl BitPlaneDecodeContext {
    /// An empty context.
    pub fn new() -> (r: Self)
        ensures
            r.wf(),
            r.width == 0,
            r.height == 0,
            r.bitplanes == 0,
            r.max_coding_passes == 0,
    {
        let mut states: Vec<CoefficientState> = Vec::new();
        let mut neighbors: Vec<NeighborSignificances> = Vec::new();
        let mut coefficients: Vec<Coefficient> = Vec::new();
        let mut i: usize = 0;
        while i < 4
            invariant
                i <= 4,
                states@.len() == i,
                neighbors@.len() == i,
                coefficients@.len() == i,
            decreases 4 - i,
        {
            states.push(CoefficientState::new());
            neighbors.push(NeighborSignificances::new());
            coefficients.push(Coefficient::new());
            i = i + 1;
        }
        let mut contexts = [ArithmeticDecoderContext::default(); 19];
        let mut ctx = BitPlaneDecodeContext {
            coefficient_states: states,
            neighbor_significances: neighbors,
            coefficients,
            width: 0,
            padded_width: 2,
            height: 0,
            style: CodeBlockStyle {
                selective_arithmetic_coding_bypass: false,
                reset_context_probabilities: false,
                termination_on_each_pass: false,
                vertically_causal_context: false,
                segmentation_symbols: false,
            },
            bitplanes: 0,
            strict: false,
            max_coding_passes: 0,
            sub_band_type: SubBandType::LowLow,
            contexts,
            current_bit_position: 0,
        };
        proof {
            assert forall|i: int| 0 <= i < 19 implies (#[trigger] ctx.contexts@[i]).wf() by {
                assert(ctx.contexts@[i]@ == (crate::j2c::arithmetic_decoder::CtxState { index: 0, mps: 0 }));
            }
        }
        ctx
    }

    /// Completely reset context so that it can be reused for a new code-block.
    pub fn reset(
        &mut self,
        code_block: &CodeBlock,
        sub_band_type: SubBandType,
        code_block_style: &CodeBlockStyle,
        total_bitplanes: u8,
        strict: bool,
    ) -> (r: Result<()>)
        requires
            code_block.rect.wf(),
            code_block.rect.spec_width() <= MAX_CODE_BLOCK_SIZE,
            code_block.rect.spec_height() <= MAX_CODE_BLOCK_SIZE,
            total_bitplanes <= 32,
        ensures
            strict && total_bitplanes < code_block.missing_bit_planes ==> r == Err::<(), DecodeError>(
                DecodeError::Decoding(DecodingError::InvalidBitplaneCount),
            ),
            strict && total_bitplanes >= code_block.missing_bit_planes && max_passes(
                total_bitplanes - code_block.missing_bit_planes,
            ) < code_block.number_of_coding_passes ==> r == Err::<(), DecodeError>(
                DecodeError::Decoding(DecodingError::TooManyCodingPasses),
            ),
            !strict || (total_bitplanes >= code_block.missing_bit_planes && max_passes(
                total_bitplanes - code_block.missing_bit_planes,
            ) >= code_block.number_of_coding_passes) ==> r is Ok,
            r is Ok ==> {
                &&& final(self).wf()
                &&& final(self).width == code_block.rect.spec_width()
                &&& final(self).height == code_block.rect.spec_height()
                &&& final(self).sub_band_type == sub_band_type
                &&& final(self).padded_width == code_block.rect.spec_width() + 2
                &&& final(self).plane() == fresh_plane(final(self).grid_len())
                &&& final(self).style == *code_block_style
                &&& final(self).strict == strict
                &&& final(self).bitplanes == (if total_bitplanes >= code_block.missing_bit_planes {
                    total_bitplanes - code_block.missing_bit_planes
                } else {
                    0
                })
                &&& forall|i: int| 0 <= i < final(self).grid_len() ==> {
                    &&& !(#[trigger] final(self).coefficient_states@[i]).significant()
                    &&& !final(self).coefficient_states@[i].refined()
                    &&& !final(self).coefficient_states@[i].zero_coded()
                    &&& final(self).coefficients@[i].magnitude() == 0
                    &&& final(self).coefficients@[i].sign_bit() == 0
                    &&& final(self).neighbor_significances@[i].0 == 0
                }
            },
    {
        let width = code_block.rect.width();
        let height = code_block.rect.height();
        let padded_width = width + COEFFICIENTS_PADDING * 2;
        let padded_height = height + COEFFICIENTS_PADDING * 2;
        assert(padded_width * padded_height <= 0x8002 * 0x8002) by (nonlinear_arith)
            requires padded_width <= 0x8002, padded_height <= 0x8002;
        let num_coefficients = padded_width as usize * padded_height as usize;

        let c = Coefficient::new();
        let n = NeighborSignificances::new();
        let st = CoefficientState::new();
        self.coefficients.clear();
        self.coefficients.resize(num_coefficients, c);
        self.neighbor_significances.clear();
        self.neighbor_significances.resize(num_coefficients, n);
        self.coefficient_states.clear();
        self.coefficient_states.resize(num_coefficients, st);

        self.width = width;
        self.padded_width = padded_width;
        self.height = height;
        self.sub_band_type = sub_band_type;
        self.style = *code_block_style;
        self.strict = strict;
        self.current_bit_position = 0;
        self.bitplanes = 0;
        self.max_coding_passes = 0;

        // "The maximum number of bit-planes available for the representation of
        // coefficients in any sub-band, b, is given by Mb as defined in Equation
        // (E-2). In general however, the number of actual bit-planes for which
        // coding passes are generated is Mb – P, where the number of missing most
        // significant bit-planes, P, may vary from code-block to code-block."

        // If this subtraction fails the file is in theory invalid, but we
        // still try to be lenient.
        let bitplanes = if strict {
            match total_bitplanes.checked_sub(code_block.missing_bit_planes) {
                Some(b) => b,
                None => return Err(DecodeError::Decoding(DecodingError::InvalidBitplaneCount)),
            }
        } else {
            total_bitplanes.saturating_sub(code_block.missing_bit_planes)
        };
        let max_coding_passes = if bitplanes == 0 { 0 } else { 1 + 3 * (bitplanes - 1) };
        if max_coding_passes < code_block.number_of_coding_passes && strict {
            return Err(DecodeError::Decoding(DecodingError::TooManyCodingPasses));
        }
        self.bitplanes = bitplanes;
        self.max_coding_passes = max_coding_passes;
        self.reset_contexts_unchecked();
        proof {
            let n = num_coefficients as nat;
            assert(self.coefficient_states@ =~= Seq::new(n, |i: int| CoefficientState(0)));
            assert(self.neighbor_significances@ =~= Seq::new(n, |i: int| NeighborSignificances(0)));
            assert(self.coefficients@ =~= Seq::new(n, |i: int| Coefficient(0)));
        }
        Ok(())
    }

    /// Reset the contexts to the initial states of Table D.7, for a context
    /// whose contexts may not be valid yet.
    fn reset_contexts_unchecked(&mut self)
        ensures
            forall|i: int| 0 <= i < 19 ==> (#[trigger] final(self).contexts@[i]).wf(),
            final(self).contexts@.map_values(|c: ArithmeticDecoderContext| c@) == initial_contexts(),
            final(self).coefficient_states == old(self).coefficient_states,
            final(self).neighbor_significances == old(self).neighbor_significances,
            final(self).coefficients == old(self).coefficients,
            final(self).width == old(self).width,
            final(self).padded_width == old(self).padded_width,
            final(self).height == old(self).height,
            final(self).style == old(self).style,
            final(self).bitplanes == old(self).bitplanes,
            final(self).strict == old(self).strict,
            final(self).max_coding_passes == old(self).max_coding_passes,
            final(self).sub_band_type == old(self).sub_band_type,
            final(self).current_bit_position == old(self).current_bit_position,
    {
        let mut i: usize = 0;
        while i < 19
            invariant
                i <= 19,
                self.coefficient_states == old(self).coefficient_states,
                self.neighbor_significances == old(self).neighbor_significances,
                self.coefficients == old(self).coefficients,
                self.width == old(self).width,
                self.padded_width == old(self).padded_width,
                self.height == old(self).height,
                self.style == old(self).style,
                self.bitplanes == old(self).bitplanes,
                self.strict == old(self).strict,
                self.max_coding_passes == old(self).max_coding_passes,
                self.sub_band_type == old(self).sub_band_type,
                self.current_bit_position == old(self).current_bit_position,
                forall|j: int| 0 <= j < i ==> (#[trigger] self.contexts@[j])@ == (
                crate::j2c::arithmetic_decoder::CtxState { index: 0, mps: 0 }),
            decreases 19 - i,
        {
            let mut c = self.contexts[i];
            c.reset();
            self.contexts[i] = c;
            i = i + 1;
        }
        let mut c0 = self.contexts[0];
        c0.reset_with_index(4);
        self.contexts[0] = c0;
        let mut c17 = self.contexts[17];
        c17.reset_with_index(3);
        self.contexts[17] = c17;
        let mut c18 = self.contexts[18];
        c18.reset_with_index(46);
        self.contexts[18] = c18;
        proof {
            assert(self.contexts@.map_values(|c: ArithmeticDecoderContext| c@) =~= initial_contexts());
        }
    }

    /// The value of coefficient (`x`, `y`) of the code-block.
    pub fn coefficient(&self, x: u32, y: u32) -> (r: i32)
        requires
            self.wf(),
            x < self.width,
            y < self.height,
        ensures
            r == self.coefficients@[grid_index(x + 1, y + 1, self.padded_width as int)].value(),
    {
        let i = self.index_of(Position::new(x, y));
        self.coefficients[i].get()
    }
}

/// The data of a code-block gathered from its layers, split where the
/// segments end.
pub struct BitPlaneDecodeBuffers {
    pub combined_layers: Vec<u8>,
    pub segment_ranges: Vec<usize>,
    pub segment_coding_passes: Vec<u8>,
}

impl BitPlaneDecodeBuffers {
    /// Empty buffers.
    pub fn new() -> (r: Self)
        ensures
            r.combined_layers@.len() == 0,
            r.segment_ranges@ == seq![0usize],
            r.segment_coding_passes@ == seq![0u8],
    {
        let mut r = BitPlaneDecodeBuffers { combined_layers: Vec::new(), segment_ranges: Vec::new(), segment_coding_passes: Vec::new() };
        r.reset();
        r
    }

    pub fn reset(&mut self)
        ensures
            final(self).combined_layers@.len() == 0,
            final(self).segment_ranges@ == seq![0usize],
            final(self).segment_coding_passes@ == seq![0u8],
    {
        self.combined_layers.clear();
        self.segment_ranges.clear();
        self.segment_coding_passes.clear();

        // The design of these two buffers is that the ranges are stored
        // as [idx, idx + 1), so we need to store the first 0 when resetting.
        self.segment_ranges.push(0);
        self.segment_coding_passes.push(0);
        proof {
            assert(self.segment_ranges@ =~= seq![0usize]);
            assert(self.segment_coding_passes@ =~= seq![0u8]);
        }
    }

    /// The segment boundaries are increasing offsets into the combined data.
    pub open spec fn wf(&self) -> bool {
        &&& self.segment_ranges@.len() == self.segment_coding_passes@.len()
        &&& self.segment_ranges@.len() >= 1
        &&& forall|i: int| 0 <= i < self.segment_ranges@.len() ==> #[trigger] self.segment_ranges@[i] <= self.combined_layers@.len()
        &&& forall|i: int, j: int| 0 <= i <= j < self.segment_ranges@.len() ==> #[trigger] self.segment_ranges@[i] <= #[trigger] self.segment_ranges@[j]
    }
}

/// The buffers hold what was gathered so far.
pub open spec fn holds(b: &BitPlaneDecodeBuffers, g: Gathered) -> bool {
    &&& b.combined_layers@ == g.data
    &&& b.segment_ranges@ == g.ranges
    &&& b.segment_coding_passes@ == g.passes
}

/// Gather the data of the segments of a code-block from its layers. Fails
/// when a range lies outside the storage, when segment indices do not
/// increase one by one, or when the coding passes do not add up to those of
/// the code-block.
fn gather_segments(code_block: &CodeBlock, storage: &DecompositionStorage<'_>, bp_buffers: &mut BitPlaneDecodeBuffers) -> (r: Option<()>)
    ensures
        r is Some ==> final(bp_buffers).wf(),
        match gather_code_block(*code_block, storage.layers@, storage.segments@) {
            Some(g) => r is Some && holds(&*final(bp_buffers), g),
            None => r is None,
        },
{
    bp_buffers.reset();
    let mut last_segment_idx: u8 = 0;
    let mut coding_passes: u8 = 0;
    proof {
        assert(bp_buffers.segment_ranges@ =~= nothing_gathered().ranges);
        assert(bp_buffers.segment_coding_passes@ =~= nothing_gathered().passes);
        assert(bp_buffers.combined_layers@ =~= nothing_gathered().data);
    }

    if code_block.layers.start > code_block.layers.end || code_block.layers.end > storage.layers.len() {
        return None;
    }
    let ghost layers = storage.layers@;
    let ghost segs = storage.segments@;
    let ghost goal = gather_from(
        layers,
        segs,
        nothing_gathered(),
        code_block.layers.start as int,
        code_block.layers.end as int,
        layer_start(layers, code_block.layers.start as int),
    );

    // Build a list so that we can associate coding passes with their segments
    // and data more easily.
    let mut l = code_block.layers.start;
    while l < code_block.layers.end
        invariant
            code_block.layers.end <= storage.layers@.len(),
            layers == storage.layers@,
            segs == storage.segments@,
            bp_buffers.wf(),
            bp_buffers.segment_ranges@.len() == last_segment_idx + 1,
            goal == gather_from(
                layers,
                segs,
                nothing_gathered(),
                code_block.layers.start as int,
                code_block.layers.end as int,
                layer_start(layers, code_block.layers.start as int),
            ),
            goal == gather_from(
                layers,
                segs,
                Gathered {
                    data: bp_buffers.combined_layers@,
                    ranges: bp_buffers.segment_ranges@,
                    passes: bp_buffers.segment_coding_passes@,
                    last: last_segment_idx,
                    total: coding_passes,
                },
                l as int,
                code_block.layers.end as int,
                layer_start(layers, l as int),
            ),
        decreases code_block.layers.end - l,
    {
        match &storage.layers[l].segments {
            Some(range) => {
                if range.start > range.end || range.end > storage.segments.len() {
                    return None;
                }
                let mut s = range.start;
                while s < range.end
                    invariant
                        range.end <= storage.segments@.len(),
                        l < code_block.layers.end,
                        code_block.layers.end <= storage.layers@.len(),
                        storage.layers@[l as int].segments == Some(*range),
                        range.start <= s,
                        layers == storage.layers@,
                        segs == storage.segments@,
                        bp_buffers.wf(),
                        bp_buffers.segment_ranges@.len() == last_segment_idx + 1,
                        goal == gather_from(
                            layers,
                            segs,
                            nothing_gathered(),
                            code_block.layers.start as int,
                            code_block.layers.end as int,
                            layer_start(layers, code_block.layers.start as int),
                        ),
                        goal == gather_from(
                            layers,
                            segs,
                            Gathered {
                                data: bp_buffers.combined_layers@,
                                ranges: bp_buffers.segment_ranges@,
                                passes: bp_buffers.segment_coding_passes@,
                                last: last_segment_idx,
                                total: coding_passes,
                            },
                            l as int,
                            code_block.layers.end as int,
                            s as int,
                        ),
                    decreases range.end - s,
                {
                    let ghost g0 = Gathered {
                        data: bp_buffers.combined_layers@,
                        ranges: bp_buffers.segment_ranges@,
                        passes: bp_buffers.segment_coding_passes@,
                        last: last_segment_idx,
                        total: coding_passes,
                    };
                    let segment = &storage.segments[s];
                    if segment.idx != last_segment_idx {
                        if last_segment_idx == u8::MAX || segment.idx != last_segment_idx + 1 {
                            return None;
                        }
                        let len = bp_buffers.combined_layers.len();
                        bp_buffers.segment_ranges.push(len);
                        bp_buffers.segment_coding_passes.push(coding_passes);
                        last_segment_idx = last_segment_idx + 1;
                    }
                    let ghost before = bp_buffers.combined_layers@;
                    bp_buffers.combined_layers.extend_from_slice(segment.data);
                    proof {
                        assert(bp_buffers.combined_layers@ =~= before + segment.data@);
                    }
                    coding_passes = match coding_passes.checked_add(segment.coding_pases) {
                        Some(c) => c,
                        None => return None,
                    };
                    proof {
                        assert(gather_segment(g0, segs[s as int]) == Some(
                            Gathered {
                                data: bp_buffers.combined_layers@,
                                ranges: bp_buffers.segment_ranges@,
                                passes: bp_buffers.segment_coding_passes@,
                                last: last_segment_idx,
                                total: coding_passes,
                            },
                        ));
                    }
                    s = s + 1;
                }
            },
            None => {},
        }
        l = l + 1;
    }

    if coding_passes != code_block.number_of_coding_passes {
        return None;
    }
    let len = bp_buffers.combined_layers.len();
    bp_buffers.segment_ranges.push(len);
    bp_buffers.segment_coding_passes.push(coding_passes);
    Some(())
}

fn decode_inner(
    code_block: &CodeBlock,
    storage: &DecompositionStorage<'_>,
    ctx: &mut BitPlaneDecodeContext,
    bp_buffers: &mut BitPlaneDecodeBuffers,
) -> (r: Option<()>)
    requires
        old(ctx).wf(),
    ensures
        final(ctx).wf(),
        old(ctx).grows_to(&*final(ctx)),
        match gather_code_block(*code_block, storage.layers@, storage.segments@) {
            None => r is None,
            Some(g) => match decode_gathered(
                old(ctx).block_setup(),
                old(ctx).plane(),
                g,
                code_block.number_of_coding_passes,
                old(ctx).max_coding_passes,
            ) {
                None => r is None,
                Some(ps) => r is Some && final(ctx).plane() == ps,
            },
        },
{
    if gather_segments(code_block, storage, bp_buffers).is_none() {
        return None;
    }
    let ghost g = gather_code_block(*code_block, storage.layers@, storage.segments@).unwrap();
    let ghost b0 = ctx.block_setup();

    let is_normal_mode = !ctx.style.selective_arithmetic_coding_bypass && !ctx.style.termination_on_each_pass;

    if is_normal_mode {
        // Only one termination per code block, so we can just decode the
        // whole range in one single go, processing all coding passes at once.
        if bp_buffers.combined_layers.len() >= u32::MAX as usize {
            return None;
        }
        let mut decoder = BitDecoder::Arithmetic(ArithmeticDecoder::new(bp_buffers.combined_layers.as_slice()));
        let end = if code_block.number_of_coding_passes <= ctx.max_coding_passes {
            code_block.number_of_coding_passes
        } else {
            ctx.max_coding_passes
        };
        proof {
            assert(decoder.state() == segment_decoder(g.data, true, b0.strict));
        }
        handle_coding_passes(0, end, ctx, &mut decoder)
    } else {
        // Otherwise, each segment introduces a termination. For "termination on
        // each pass", each segment only covers one coding pass
        // and a termination is introduced every time. Otherwise, for only
        // arithmetic coding bypass, terminations are introduced based on the
        // exact index of the covered coding passes (see Table D.9).
        let ghost c0 = *ctx;
        let ghost goal = segments_from(b0, ctx.plane(), g, ctx.max_coding_passes, 0);
        let n = bp_buffers.segment_coding_passes.len();
        let mut segment: usize = 0;
        while segment + 1 < n
            invariant
                ctx.wf(),
                c0.wf(),
                c0 == *old(ctx),
                c0.grows_to(&*ctx),
                b0 == c0.block_setup(),
                bp_buffers.wf(),
                holds(bp_buffers, g),
                n == bp_buffers.segment_coding_passes@.len(),
                segment < n,
                goal == segments_from(b0, c0.plane(), g, c0.max_coding_passes, 0),
                goal == segments_from(b0, ctx.plane(), g, c0.max_coding_passes, segment as int),
                gather_code_block(*code_block, storage.layers@, storage.segments@) == Some(g),
                b0.style.selective_arithmetic_coding_bypass || b0.style.termination_on_each_pass,
            decreases n - segment,
        {
            let start_coding_pass = bp_buffers.segment_coding_passes[segment];
            let next = bp_buffers.segment_coding_passes[segment + 1];
            let end_coding_pass = if next <= ctx.max_coding_passes { next } else { ctx.max_coding_passes };
            let data = vstd::slice::slice_subrange(
                bp_buffers.combined_layers.as_slice(),
                bp_buffers.segment_ranges[segment],
                bp_buffers.segment_ranges[segment + 1],
            );
            let use_arithmetic = if ctx.style.selective_arithmetic_coding_bypass {
                if start_coding_pass <= 9 {
                    true
                } else {
                    // Only for cleanup pass.
                    start_coding_pass % 3 == 0
                }
            } else {
                true
            };
            proof {
                assert(use_arithmetic == uses_arithmetic(b0.style, start_coding_pass));
                assert(data@ == g.data.subrange(g.ranges[segment as int] as int, g.ranges[segment + 1] as int));
            }
            let ghost c1 = *ctx;
            let result = if use_arithmetic {
                if data.len() >= u32::MAX as usize {
                    proof {
                        assert(segments_from(b0, ctx.plane(), g, c0.max_coding_passes, segment as int) is None);
                    }
                    return None;
                }
                let mut decoder = BitDecoder::Arithmetic(ArithmeticDecoder::new(data));
                proof {
                    assert(decoder.state() == segment_decoder(data@, true, b0.strict));
                }
                handle_coding_passes(start_coding_pass, end_coding_pass, ctx, &mut decoder)
            } else {
                if data.len() > usize::MAX / 8 {
                    proof {
                        assert(segments_from(b0, ctx.plane(), g, c0.max_coding_passes, segment as int) is None);
                    }
                    return None;
                }
                let mut decoder = BitDecoder::new_bypass(data, ctx.strict);
                proof {
                    assert(decoder.state() == segment_decoder(data@, false, b0.strict));
                }
                handle_coding_passes(start_coding_pass, end_coding_pass, ctx, &mut decoder)
            };
            proof {
                lemma_grows_trans(&c0, &c1, &*ctx);
            }
            if result.is_none() {
                return None;
            }
            segment = segment + 1;
        }
        Some(())
    }
}

/// The setup with which the bitplanes of a code-block are decoded: its
/// size, the code-block style, the sub-band it belongs to and its number
/// of bitplanes, the bitplanes of the sub-band less its missing ones (none
/// where those are more).
pub open spec fn code_block_setup(
    code_block: CodeBlock,
    sub_band_type: SubBandType,
    total_bitplanes: u8,
    style: CodeBlockStyle,
    strict: bool,
) -> BlockSetup {
    BlockSetup {
        width: code_block.rect.spec_width() as int,
        height: code_block.rect.spec_height() as int,
        padded_width: code_block.rect.spec_width() + 2,
        style: style,
        sub_band_type: sub_band_type,
        bitplanes: if total_bitplanes >= code_block.missing_bit_planes {
            (total_bitplanes - code_block.missing_bit_planes) as u8
        } else {
            0
        },
        strict: strict,
    }
}

/// What decoding a code-block from the storage gives: `None` where its
/// data cannot be gathered or a bit it needs cannot be read.
pub open spec fn decoded_code_block(
    code_block: CodeBlock,
    sub_band_type: SubBandType,
    total_bitplanes: u8,
    style: CodeBlockStyle,
    strict: bool,
    layers: Seq<Layer>,
    segments: Seq<Segment>,
) -> Option<PlaneState> {
    let b = code_block_setup(code_block, sub_band_type, total_bitplanes, style, strict);
    match gather_code_block(code_block, layers, segments) {
        None => None,
        Some(g) => decode_gathered(
            b,
            fresh_plane((b.width + 2) * (b.height + 2)),
            g,
            code_block.number_of_coding_passes,
            max_passes(b.bitplanes as int) as u8,
        ),
    }
}

/// Decode the layers of the given code block into coefficients.
///
/// The result will be stored in the form of a vector of signs and magnitudes
/// in the bitplane decoder context.
pub fn decode(
    code_block: &CodeBlock,
    sub_band_type: SubBandType,
    total_bitplanes: u8,
    style: &CodeBlockStyle,
    tile_ctx: &mut TileDecodeContext,
    storage: &DecompositionStorage<'_>,
    strict: bool,
) -> (r: Result<()>)
    requires
        code_block.rect.wf(),
        code_block.rect.spec_width() <= MAX_CODE_BLOCK_SIZE,
        code_block.rect.spec_height() <= MAX_CODE_BLOCK_SIZE,
        total_bitplanes <= 32,
    ensures
        strict && total_bitplanes < code_block.missing_bit_planes ==> r == Err::<(), DecodeError>(
            DecodeError::Decoding(DecodingError::InvalidBitplaneCount),
        ),
        strict && total_bitplanes >= code_block.missing_bit_planes && max_passes(
            total_bitplanes - code_block.missing_bit_planes,
        ) < code_block.number_of_coding_passes ==> r == Err::<(), DecodeError>(
            DecodeError::Decoding(DecodingError::TooManyCodingPasses),
        ),
        !strict || (total_bitplanes >= code_block.missing_bit_planes && max_passes(
            total_bitplanes - code_block.missing_bit_planes,
        ) >= code_block.number_of_coding_passes) ==> match decoded_code_block(
            *code_block,
            sub_band_type,
            total_bitplanes,
            *style,
            strict,
            storage.layers@,
            storage.segments@,
        ) {
            None => r == Err::<(), DecodeError>(DecodeError::Decoding(DecodingError::CodeBlockDecodeFailure)),
            Some(ps) => r is Ok && final(tile_ctx).bit_plane_decode_context.plane() == ps,
        },
        r is Ok ==> {
            &&& final(tile_ctx).bit_plane_decode_context.wf()
            &&& final(tile_ctx).bit_plane_decode_context.width == code_block.rect.spec_width()
            &&& final(tile_ctx).bit_plane_decode_context.height == code_block.rect.spec_height()
            &&& final(tile_ctx).bit_plane_decode_context.padded_width == code_block.rect.spec_width() + 2
        },
{
    match tile_ctx.bit_plane_decode_context.reset(code_block, sub_band_type, style, total_bitplanes, strict) {
        Ok(()) => {},
        Err(e) => return Err(e),
    }
    tile_ctx.bit_plane_decode_buffers.reset();
    proof {
        let c = tile_ctx.bit_plane_decode_context;
        assert(c.block_setup() == code_block_setup(*code_block, sub_band_type, total_bitplanes, *style, strict));
        assert(c.grid_len() == (c.block_setup().width + 2) * (c.block_setup().height + 2));
    }

    match decode_inner(
        code_block,
        storage,
        &mut tile_ctx.bit_plane_decode_context,
        &mut tile_ctx.bit_plane_decode_buffers,
    ) {
        Some(()) => Ok(()),
        None => Err(DecodeError::Decoding(DecodingError::CodeBlockDecodeFailure)),
    }
}

} // verus!
