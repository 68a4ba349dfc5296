//! What the coding passes of Annex D decode, stated over the state of a
//! code-block: its coefficient states, neighbor significances, coefficients
//! and arithmetic decoder contexts, and the state of the bit decoder.
//!
//! Each pass scans the code-block in stripes of four rows, column by
//! column, and decides for each coefficient from the state left behind by
//! the coefficients scanned before it; the passes are stated as that scan,
//! from a position onwards.
use crate::j2c::arithmetic_decoder::{decode_step, init_state, CtxState, MqState};
use crate::j2c::bitplane::{
    bit_of, clamp_contribution, contribution, grid_index, refinement_label, sign_label, zero_coding_label,
    Coefficient, CoefficientState, NeighborSignificances, Position,
};
use crate::j2c::blocks::{CodeBlock, Layer, Segment, SubBandType};
use crate::j2c::codestream::CodeBlockStyle;
use crate::reader::stuffed_bits;
use vstd::prelude::*;

verus! {

/// Where a bit decoder stands: the arithmetic decoder's data and
/// registers, or the raw data, bit position and strictness of the bypass.
pub enum DecoderState {
    Arithmetic(Seq<u8>, MqState),
    Bypass(Seq<u8>, int, bool),
}

/// Reading a bit with a context: the DECODE procedure of C.3.2 for the
/// arithmetic decoder; a raw bit, skipping stuffed bits, for the bypass,
/// which leaves the context alone and, where the data has run out, yields
/// 1 unless it is strict.
pub open spec fn read_decoder(d: DecoderState, cx: CtxState) -> (DecoderState, CtxState, Option<u32>) {
    match d {
        DecoderState::Arithmetic(data, s) => {
            let (s2, cx2, bit) = decode_step(data, s, cx);
            (DecoderState::Arithmetic(data, s2), cx2, Some(bit))
        },
        DecoderState::Bypass(data, pos, strict) => {
            let (r, pos2) = stuffed_bits(data, pos, 1, 0);
            let bit = match r {
                Some(b) => Some(b),
                None => if strict { None } else { Some(1u32) },
            };
            (DecoderState::Bypass(data, pos2, strict), cx, bit)
        },
    }
}

/// What stays fixed during a coding pass.
pub struct PassSetup {
    pub width: int,
    pub height: int,
    pub padded_width: int,
    pub vertically_causal: bool,
    pub sub_band_type: SubBandType,
    pub bit_position: u8,
}

/// What a coding pass changes: the grids of the padded code-block and the
/// contexts.
#[verifier::ext_equal]
pub struct PlaneState {
    pub states: Seq<CoefficientState>,
    pub neighbors: Seq<NeighborSignificances>,
    pub coefficients: Seq<Coefficient>,
    pub contexts: Seq<CtxState>,
}

/// The position of the coefficient in column `x` and row `y`.
pub open spec fn cell(x: int, y: int) -> Position {
    Position { index_x: (x + 1) as u32, index_y: (y + 1) as u32 }
}

/// The index of a position in the grids.
pub open spec fn at(s: PassSetup, p: Position) -> int {
    grid_index(p.index_x as int, p.index_y as int, s.padded_width)
}

/// Whether the neighbors below a position lie in the next stripe, which
/// the vertically causal context does not look at.
pub open spec fn below_in_next_stripe(s: PassSetup, p: Position) -> bool {
    p.index_y < s.height && p.index_y / 4 > (p.index_y - 1) / 4
}

/// The significances of the neighbors that the contexts of a position see.
pub open spec fn neighborhood(s: PassSetup, ps: PlaneState, p: Position) -> u8 {
    let n = ps.neighbors[at(s, p)].0;
    if s.vertically_causal && below_in_next_stripe(s, p) {
        n & 0b1111_0100u8
    } else {
        n
    }
}

/// The sign bit of the coefficient at padded position (`x`, `y`).
pub open spec fn sign_at(s: PassSetup, ps: PlaneState, x: int, y: int) -> u32 {
    ps.coefficients[grid_index(x, y, s.padded_width)].sign_bit()
}

/// The context label and XOR bit for the sign of a position (Table D.3),
/// from the significances and signs of its four direct neighbors.
pub open spec fn sign_context(s: PassSetup, ps: PlaneState, p: Position) -> (u8, u8) {
    let n = neighborhood(s, ps, p);
    let x = p.index_x as int;
    let y = p.index_y as int;
    let bottom_sign = if s.vertically_causal && below_in_next_stripe(s, p) {
        0
    } else {
        sign_at(s, ps, x, y + 1)
    };
    sign_label(
        clamp_contribution(
            contribution(bit_of(n, 4) == 1, sign_at(s, ps, x - 1, y)),
            contribution(bit_of(n, 2) == 1, sign_at(s, ps, x + 1, y)),
        ),
        clamp_contribution(
            contribution(bit_of(n, 6) == 1, sign_at(s, ps, x, y - 1)),
            contribution(bit_of(n, 0) == 1, bottom_sign),
        ),
    )
}

/// Reading a bit with the context of label `label`.
pub open spec fn read_bit(ps: PlaneState, d: DecoderState, label: int) -> (PlaneState, DecoderState, Option<u32>) {
    let (d2, cx, r) = read_decoder(d, ps.contexts[label]);
    (PlaneState { contexts: ps.contexts.update(label, cx), ..ps }, d2, r)
}

/// The state of a position with the bits of `mask` set.
pub open spec fn or_state(s: PassSetup, ps: PlaneState, p: Position, mask: u8) -> PlaneState {
    let i = at(s, p);
    PlaneState { states: ps.states.update(i, CoefficientState(ps.states[i].0 | mask)), ..ps }
}

/// Marking a position as zero coded in the current bitplane.
pub open spec fn mark_zero_coded(s: PassSetup, ps: PlaneState, p: Position) -> PlaneState {
    let i = at(s, p);
    PlaneState { states: ps.states.update(i, CoefficientState((ps.states[i].0 & !0x20u8) | 0x20u8)), ..ps }
}

/// Setting the magnitude bit of the current bitplane of a position.
pub open spec fn push_bit(s: PassSetup, ps: PlaneState, p: Position) -> PlaneState {
    let i = at(s, p);
    PlaneState {
        coefficients: ps.coefficients.update(i, Coefficient(ps.coefficients[i].0 | (1u32 << s.bit_position as u32))),
        ..ps
    }
}

/// Setting the sign bit of a position when `sign` is 1.
pub open spec fn or_sign(s: PassSetup, ps: PlaneState, p: Position, sign: u32) -> PlaneState {
    let i = at(s, p);
    PlaneState { coefficients: ps.coefficients.update(i, Coefficient(ps.coefficients[i].0 | (sign << 31u32))), ..ps }
}

/// The neighbor significances with the bits of `mask` set at padded
/// position (`x`, `y`).
pub open spec fn or_neighbor(s: PassSetup, n: Seq<NeighborSignificances>, x: int, y: int, mask: u8) -> Seq<
    NeighborSignificances,
> {
    let i = grid_index(x, y, s.padded_width);
    n.update(i, NeighborSignificances(n[i].0 | mask))
}

/// Marking a position as significant, and telling each of its eight
/// neighbors on which side it has a significant neighbor now.
pub open spec fn mark_significant(s: PassSetup, ps: PlaneState, p: Position) -> PlaneState {
    let x = p.index_x as int;
    let y = p.index_y as int;
    let n0 = ps.neighbors;
    let n1 = or_neighbor(s, n0, x - 1, y - 1, 0x02u8);
    let n2 = or_neighbor(s, n1, x, y - 1, 0x01u8);
    let n3 = or_neighbor(s, n2, x + 1, y - 1, 0x08u8);
    let n4 = or_neighbor(s, n3, x - 1, y, 0x04u8);
    let n5 = or_neighbor(s, n4, x + 1, y, 0x10u8);
    let n6 = or_neighbor(s, n5, x - 1, y + 1, 0x20u8);
    let n7 = or_neighbor(s, n6, x, y + 1, 0x40u8);
    let n8 = or_neighbor(s, n7, x + 1, y + 1, 0x80u8);
    PlaneState { neighbors: n8, ..or_state(s, ps, p, 0x80u8) }
}

/// Decoding the sign of a position (D.3.2): the bit read with the sign
/// context, XORed with its XOR bit unless the bypass read it. Also where
/// the read fails the states it left are given, with `false`.
pub open spec fn decode_sign(s: PassSetup, ps: PlaneState, d: DecoderState, p: Position) -> (
    PlaneState,
    DecoderState,
    bool,
) {
    let (label, xor_bit) = sign_context(s, ps, p);
    let (ps1, d1, r) = read_bit(ps, d, label as int);
    match r {
        Some(bit) => {
            let sign = if d is Bypass { bit } else { bit ^ (xor_bit as u32) };
            (or_sign(s, ps1, p, sign), d1, true)
        },
        None => (ps1, d1, false),
    }
}

/// A pass gave back `r` and left the states `ps` and `d` where `expected`
/// is what it decodes: those states where `expected` has them, `None` where
/// it is `None`.
pub open spec fn pass_outcome(expected: Option<(PlaneState, DecoderState)>, r: Option<()>, ps: PlaneState, d: DecoderState) -> bool {
    match expected {
        Some((ps1, d1)) => r is Some && ps == ps1 && d == d1,
        None => r is None,
    }
}

/// The last row of the stripe that starts at row `base`, plus one.
pub open spec fn stripe_end(s: PassSetup, base: int) -> int {
    if base + 4 <= s.height { base + 4 } else { s.height }
}

/// The significance propagation pass (D.3.1) at a coefficient: an
/// insignificant coefficient with a significant neighbor has its bit
/// decoded with the zero coding context and is marked as zero coded; a 1
/// sets its magnitude bit, and its sign, decoded next, and makes it
/// significant.
pub open spec fn propagation_step(s: PassSetup, ps: PlaneState, d: DecoderState, p: Position) -> Option<
    (PlaneState, DecoderState),
> {
    let n = neighborhood(s, ps, p);
    if !ps.states[at(s, p)].significant() && n != 0 {
        let (ps1, d1, r) = read_bit(ps, d, zero_coding_label(s.sub_band_type, n) as int);
        match r {
            None => None,
            Some(bit) => {
                let ps2 = mark_zero_coded(s, ps1, p);
                if bit == 1 {
                    let (ps3, d3, ok) = decode_sign(s, push_bit(s, ps2, p), d1, p);
                    if ok {
                        Some((mark_significant(s, ps3, p), d3))
                    } else {
                        None
                    }
                } else {
                    Some((ps2, d1))
                }
            },
        }
    } else {
        Some((ps, d))
    }
}

/// The significance propagation pass from row `y` of column `x` of the
/// stripe that starts at row `base` onwards, over the rest of the
/// code-block in stripe order; `None` where a bit could not be read.
pub open spec fn propagation_from(s: PassSetup, ps: PlaneState, d: DecoderState, base: int, x: int, y: int) -> Option<
    (PlaneState, DecoderState),
>
    decreases s.height + 4 - base, s.width + 1 - x, s.height + 1 - y,
{
    if base >= s.height {
        Some((ps, d))
    } else if x >= s.width {
        propagation_from(s, ps, d, base + 4, 0, base + 4)
    } else if y >= stripe_end(s, base) {
        propagation_from(s, ps, d, base, x + 1, base)
    } else {
        match propagation_step(s, ps, d, cell(x, y)) {
            None => None,
            Some((ps1, d1)) => propagation_from(s, ps1, d1, base, x, y + 1),
        }
    }
}

/// The magnitude refinement pass (D.3.3) at a coefficient: a significant
/// coefficient that was not zero coded in this bitplane has its bit
/// decoded with the refinement context, and is marked as refined.
pub open spec fn refinement_step(s: PassSetup, ps: PlaneState, d: DecoderState, p: Position) -> Option<
    (PlaneState, DecoderState),
> {
    let st = ps.states[at(s, p)];
    if st.significant() && !st.zero_coded() {
        let label = refinement_label(st.refined(), neighborhood(s, ps, p));
        let (ps1, d1, r) = read_bit(ps, d, label as int);
        match r {
            None => None,
            Some(bit) => {
                let ps2 = if bit == 1 { push_bit(s, ps1, p) } else { ps1 };
                Some((or_state(s, ps2, p, 0x40u8), d1))
            },
        }
    } else {
        Some((ps, d))
    }
}

/// The magnitude refinement pass from row `y` of column `x` of the stripe
/// that starts at row `base` onwards.
pub open spec fn refinement_from(s: PassSetup, ps: PlaneState, d: DecoderState, base: int, x: int, y: int) -> Option<
    (PlaneState, DecoderState),
>
    decreases s.height + 4 - base, s.width + 1 - x, s.height + 1 - y,
{
    if base >= s.height {
        Some((ps, d))
    } else if x >= s.width {
        refinement_from(s, ps, d, base + 4, 0, base + 4)
    } else if y >= stripe_end(s, base) {
        refinement_from(s, ps, d, base, x + 1, base)
    } else {
        match refinement_step(s, ps, d, cell(x, y)) {
            None => None,
            Some((ps1, d1)) => refinement_from(s, ps1, d1, base, x, y + 1),
        }
    }
}

/// Whether the cleanup pass decodes the four coefficients from row `y` of
/// column `x` on in run-length mode (D.3.4): they start a full stripe and
/// none of them has a significant neighbor.
pub open spec fn run_length_mode(s: PassSetup, ps: PlaneState, x: int, y: int) -> bool {
    &&& y % 4 == 0
    &&& s.height - y >= 4
    &&& neighborhood(s, ps, cell(x, y)) == 0
    &&& neighborhood(s, ps, cell(x, y + 1)) == 0
    &&& neighborhood(s, ps, cell(x, y + 2)) == 0
    &&& neighborhood(s, ps, cell(x, y + 3)) == 0
}

/// The bit that the cleanup pass decodes first at a coefficient and the
/// row it stands for: in run-length mode, a 0 with the run-length context
/// stands for four insignificant coefficients, else the next two bits with
/// the uniform context give the row of the first significant one; outside
/// it, the bit decoded with the zero coding context.
pub open spec fn cleanup_bit(s: PassSetup, ps: PlaneState, d: DecoderState, x: int, y: int) -> Option<
    (PlaneState, DecoderState, u32, int),
> {
    if run_length_mode(s, ps, x, y) {
        let (ps1, d1, r) = read_bit(ps, d, 17);
        match r {
            None => None,
            Some(run) => if run == 0 {
                Some((ps1, d1, 0u32, y + 3))
            } else {
                let (ps2, d2, hi) = read_bit(ps1, d1, 18);
                match hi {
                    None => None,
                    Some(h) => {
                        let (ps3, d3, lo) = read_bit(ps2, d2, 18);
                        match lo {
                            None => None,
                            Some(l) => Some((ps3, d3, 1u32, y + 2 * h + l)),
                        }
                    },
                }
            },
        }
    } else {
        let (ps1, d1, r) = read_bit(ps, d, zero_coding_label(s.sub_band_type, neighborhood(s, ps, cell(x, y))) as int);
        match r {
            None => None,
            Some(b) => Some((ps1, d1, b, y)),
        }
    }
}

/// The cleanup pass (D.3.4) at a coefficient that is neither significant
/// nor zero coded: a 1 sets the magnitude bit of the coefficient it stands
/// for, whose sign is decoded next, and makes it significant. The pass
/// goes on after the row the bit stood for; a sign that could not be read
/// stops nothing.
pub open spec fn cleanup_step(s: PassSetup, ps: PlaneState, d: DecoderState, x: int, y: int) -> Option<
    (PlaneState, DecoderState, int),
> {
    let st = ps.states[at(s, cell(x, y))];
    if !st.significant() && !st.zero_coded() {
        match cleanup_bit(s, ps, d, x, y) {
            None => None,
            Some((ps1, d1, bit, row)) => if bit == 1 {
                let q = cell(x, row);
                let (ps2, d2, _ok) = decode_sign(s, push_bit(s, ps1, q), d1, q);
                Some((mark_significant(s, ps2, q), d2, row))
            } else {
                Some((ps1, d1, row))
            },
        }
    } else {
        Some((ps, d, y))
    }
}

/// The cleanup pass from row `y` of column `x` of the stripe that starts
/// at row `base` onwards.
pub open spec fn cleanup_from(s: PassSetup, ps: PlaneState, d: DecoderState, base: int, x: int, y: int) -> Option<
    (PlaneState, DecoderState),
>
    decreases s.height + 4 - base, s.width + 1 - x, s.height + 1 - y,
{
    if base >= s.height {
        Some((ps, d))
    } else if x >= s.width {
        cleanup_from(s, ps, d, base + 4, 0, base + 4)
    } else if y >= stripe_end(s, base) {
        cleanup_from(s, ps, d, base, x + 1, base)
    } else {
        match cleanup_step(s, ps, d, x, y) {
            None => None,
            Some((ps1, d1, row)) => if y <= row < stripe_end(s, base) {
                cleanup_from(s, ps1, d1, base, x, row + 1)
            } else {
                None
            },
        }
    }
}

/// What stays fixed while the coding passes of a code-block are decoded.
pub struct BlockSetup {
    pub width: int,
    pub height: int,
    pub padded_width: int,
    pub style: CodeBlockStyle,
    pub sub_band_type: SubBandType,
    pub bitplanes: u8,
    pub strict: bool,
}

/// The bit position that coding pass `pass` of a code-block with
/// `bitplanes` bitplanes decodes: the first bitplane has only a cleanup
/// pass, every other one three passes.
pub open spec fn pass_bit_position(bitplanes: u8, pass: int) -> u8 {
    (bitplanes - 1 - (pass + 2) / 3) as u8
}

/// The initial states of the contexts (Table D.7): all zero but the
/// zero coding context of label 0, the run-length context and the uniform
/// context.
pub open spec fn initial_contexts() -> Seq<CtxState> {
    Seq::new(
        19,
        |i: int|
            if i == 0 {
                CtxState { index: 4, mps: 0 }
            } else if i == 17 {
                CtxState { index: 3, mps: 0 }
            } else if i == 18 {
                CtxState { index: 46, mps: 0 }
            } else {
                CtxState { index: 0, mps: 0 }
            },
    )
}

/// The states with the zero coded marks of the last bitplane cleared.
pub open spec fn clear_zero_coded(ps: PlaneState) -> PlaneState {
    PlaneState { states: ps.states.map_values(|st: CoefficientState| CoefficientState(st.0 & !0x20u8)), ..ps }
}

/// The segmentation symbol after a cleanup pass (D.5): four bits with the
/// uniform context, which must all be read and, in strict mode, be 1010.
pub open spec fn segmentation_symbol(ps: PlaneState, d: DecoderState, strict: bool) -> Option<
    (PlaneState, DecoderState),
> {
    let (ps1, d1, b0) = read_bit(ps, d, 18);
    let (ps2, d2, b1) = read_bit(ps1, d1, 18);
    let (ps3, d3, b2) = read_bit(ps2, d2, 18);
    let (ps4, d4, b3) = read_bit(ps3, d3, 18);
    if b0 is None || b1 is None || b2 is None || b3 is None {
        None
    } else if strict && !(b0 == Some(1u32) && b1 == Some(0u32) && b2 == Some(1u32) && b3 == Some(0u32)) {
        None
    } else {
        Some((ps4, d4))
    }
}

/// The setup of coding pass `pass` of a code-block.
pub open spec fn pass_setup(b: BlockSetup, pass: int) -> PassSetup {
    PassSetup {
        width: b.width,
        height: b.height,
        padded_width: b.padded_width,
        vertically_causal: b.style.vertically_causal_context,
        sub_band_type: b.sub_band_type,
        bit_position: pass_bit_position(b.bitplanes, pass),
    }
}

/// Coding pass `pass` of a code-block (D.4): a
/// cleanup pass, followed by the segmentation symbol where the code-block
/// style asks for it, ends a bitplane and clears its zero coded marks; the
/// other two are the significance propagation and the magnitude refinement
/// pass.
#[verifier::opaque]
pub open spec fn decode_coding_pass(b: BlockSetup, ps: PlaneState, d: DecoderState, pass: int) -> Option<
    (PlaneState, DecoderState),
> {
    let s = pass_setup(b, pass);
    if pass % 3 == 0 {
        match cleanup_from(s, ps, d, 0, 0, 0) {
            None => None,
            Some((ps1, d1)) => {
                let symbol = if b.style.segmentation_symbols {
                    segmentation_symbol(ps1, d1, b.strict)
                } else {
                    Some((ps1, d1))
                };
                match symbol {
                    None => None,
                    Some((ps2, d2)) => Some((clear_zero_coded(ps2), d2)),
                }
            },
        }
    } else if pass % 3 == 1 {
        propagation_from(s, ps, d, 0, 0, 0)
    } else {
        refinement_from(s, ps, d, 0, 0, 0)
    }
}

/// The coding passes `pass..end` of a code-block, the contexts reset after
/// each one where the code-block style asks for it.
pub open spec fn coding_passes(b: BlockSetup, ps: PlaneState, d: DecoderState, pass: int, end: int) -> Option<
    (PlaneState, DecoderState),
>
    decreases end - pass,
{
    if pass >= end {
        Some((ps, d))
    } else {
        match decode_coding_pass(b, ps, d, pass) {
            None => None,
            Some((ps1, d1)) => {
                let ps2 = if b.style.reset_context_probabilities {
                    PlaneState { contexts: initial_contexts(), ..ps1 }
                } else {
                    ps1
                };
                coding_passes(b, ps2, d1, pass + 1, end)
            },
        }
    }
}

/// The data of a code-block gathered from its layers: the bytes of its
/// segments one after another, where each segment starts in them and how
/// many coding passes came before it, the index of the last segment and
/// the number of coding passes so far.
pub struct Gathered {
    pub data: Seq<u8>,
    pub ranges: Seq<usize>,
    pub passes: Seq<u8>,
    pub last: u8,
    pub total: u8,
}

/// Nothing gathered yet: the first segment starts at 0 after no coding
/// pass.
pub open spec fn nothing_gathered() -> Gathered {
    Gathered { data: Seq::empty(), ranges: seq![0usize], passes: seq![0u8], last: 0, total: 0 }
}

/// Gathering one segment: a segment with a new index, which must be the
/// next one, starts a new range; its bytes are appended and its coding
/// passes counted, which must not overflow.
pub open spec fn gather_segment(g: Gathered, seg: Segment) -> Option<Gathered> {
    let started = if seg.idx != g.last {
        if g.last == 255 || seg.idx != g.last + 1 {
            None
        } else {
            Some(
                Gathered {
                    ranges: g.ranges.push(g.data.len() as usize),
                    passes: g.passes.push(g.total),
                    last: (g.last + 1) as u8,
                    ..g
                },
            )
        }
    } else {
        Some(g)
    };
    match started {
        None => None,
        Some(g1) => if g1.total + seg.coding_pases > 255 {
            None
        } else {
            Some(Gathered { data: g1.data + seg.data@, total: (g1.total + seg.coding_pases) as u8, ..g1 })
        },
    }
}

/// Where the segments of layer `l` start in the storage.
pub open spec fn layer_start(layers: Seq<Layer>, l: int) -> int {
    match layers[l].segments {
        Some(range) => range.start as int,
        None => 0,
    }
}

/// Gathering the segments of layers `l..end` from segment `s` of layer `l`
/// on; `None` where the segments of a layer lie outside the storage or a
/// segment cannot be gathered.
pub open spec fn gather_from(layers: Seq<Layer>, segs: Seq<Segment>, g: Gathered, l: int, end: int, s: int) -> Option<
    Gathered,
>
    decreases end - l, segs.len() + 1 - s,
{
    if l >= end {
        Some(g)
    } else {
        match layers[l].segments {
            None => gather_from(layers, segs, g, l + 1, end, layer_start(layers, l + 1)),
            Some(range) => if range.start > range.end || range.end > segs.len() {
                None
            } else if s >= range.end {
                gather_from(layers, segs, g, l + 1, end, layer_start(layers, l + 1))
            } else if s < 0 {
                None
            } else {
                match gather_segment(g, segs[s]) {
                    None => None,
                    Some(g1) => gather_from(layers, segs, g1, l, end, s + 1),
                }
            },
        }
    }
}

/// The data of a code-block gathered from the layers it is in: `None`
/// where its layers lie outside the storage, a segment cannot be gathered
/// or the coding passes of its segments do not add up to its own. The last
/// range ends with the data.
pub open spec fn gather_code_block(cb: CodeBlock, layers: Seq<Layer>, segs: Seq<Segment>) -> Option<Gathered> {
    if cb.layers.start > cb.layers.end || cb.layers.end > layers.len() {
        None
    } else {
        match gather_from(
            layers,
            segs,
            nothing_gathered(),
            cb.layers.start as int,
            cb.layers.end as int,
            layer_start(layers, cb.layers.start as int),
        ) {
            None => None,
            Some(g) => if g.total != cb.number_of_coding_passes {
                None
            } else {
                Some(Gathered { ranges: g.ranges.push(g.data.len() as usize), passes: g.passes.push(g.total), ..g })
            },
        }
    }
}

/// The decoder that a terminated segment of `data` starts with: the
/// arithmetic decoder after INITDEC (C.3.5), or the bypass at its first
/// bit.
pub open spec fn segment_decoder(data: Seq<u8>, arithmetic: bool, strict: bool) -> DecoderState {
    if arithmetic {
        DecoderState::Arithmetic(data, init_state(data))
    } else {
        DecoderState::Bypass(data, 0, strict)
    }
}

/// Whether the segment whose first coding pass is `start` is coded
/// arithmetically: with the selective arithmetic coding bypass only the
/// first ten coding passes and the cleanup passes are (Table D.9).
pub open spec fn uses_arithmetic(style: CodeBlockStyle, start: u8) -> bool {
    !style.selective_arithmetic_coding_bypass || start <= 9 || start % 3 == 0
}

/// The coding passes of the terminated segments `j..` of the gathered data,
/// each with a decoder of its own, up to `max` coding passes.
pub open spec fn segments_from(b: BlockSetup, ps: PlaneState, g: Gathered, max: u8, j: int) -> Option<PlaneState>
    decreases g.passes.len() - j,
{
    if j < 0 || j + 1 >= g.passes.len() {
        Some(ps)
    } else {
        let start = g.passes[j];
        let next = g.passes[j + 1];
        let end = if next <= max { next } else { max };
        let data = g.data.subrange(g.ranges[j] as int, g.ranges[j + 1] as int);
        let arithmetic = uses_arithmetic(b.style, start);
        if (arithmetic && data.len() >= u32::MAX) || (!arithmetic && data.len() > usize::MAX / 8) {
            None
        } else {
            match coding_passes(b, ps, segment_decoder(data, arithmetic, b.strict), start as int, end as int) {
                None => None,
                Some((ps1, _d)) => segments_from(b, ps1, g, max, j + 1),
            }
        }
    }
}

/// Decoding the coding passes of a code-block from its gathered data, up
/// to `max` of them: without the arithmetic coding bypass and a
/// termination on each pass, all `passes` of them with one arithmetic
/// decoder over all the data; otherwise segment by segment.
pub open spec fn decode_gathered(b: BlockSetup, ps: PlaneState, g: Gathered, passes: u8, max: u8) -> Option<PlaneState> {
    if !b.style.selective_arithmetic_coding_bypass && !b.style.termination_on_each_pass {
        if g.data.len() >= u32::MAX {
            None
        } else {
            let end = if passes <= max { passes } else { max };
            match coding_passes(b, ps, segment_decoder(g.data, true, b.strict), 0, end as int) {
                None => None,
                Some((ps1, _d)) => Some(ps1),
            }
        }
    } else {
        segments_from(b, ps, g, max, 0)
    }
}

/// The state of a code-block of `n` padded positions before decoding:
/// nothing significant, all coefficients zero, the contexts in their
/// initial states.
pub open spec fn fresh_plane(n: int) -> PlaneState {
    PlaneState {
        states: Seq::new(n as nat, |i: int| CoefficientState(0)),
        neighbors: Seq::new(n as nat, |i: int| NeighborSignificances(0)),
        coefficients: Seq::new(n as nat, |i: int| Coefficient(0)),
        contexts: initial_contexts(),
    }
}

} // verus!
