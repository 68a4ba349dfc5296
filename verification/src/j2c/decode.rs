//! Decoding the code-blocks of the tiles of a codestream into integer
//! coefficients.
use crate::error::{DecodeError, DecodingError, Result, TileError};
use crate::j2c::bitplane::{self, BitPlaneDecodeBuffers, BitPlaneDecodeContext, MAX_CODE_BLOCK_SIZE};
use crate::j2c::blocks::{self, CodeBlock, Decomposition, Layer, Precinct, Segment, SubBand, SubBandType};
use crate::j2c::codestream::{ComponentInfo, Header, ProgressionOrder, QuantizationStyle};
use crate::j2c::progression::{self, max_resolution_levels, IteratorInput, ProgressionIterator};
use crate::j2c::segment::{self, MAX_BITPLANE_COUNT};
use crate::j2c::tag_tree::TagNode;
use crate::j2c::idwt::log_gain;
use crate::j2c::tile::Tile;
use core::ops::Range;
use vstd::prelude::*;

verus! {

/// All decompositions for a single tile.
pub struct TileDecompositions {
    pub first_ll_sub_band: usize,
    pub decompositions: Range<usize>,
}

/// The sub-bands of one resolution: the LL sub-band for resolution 0, and
/// the HL, LH and HH sub-bands of a decomposition otherwise.
pub struct SubBandIter {
    pub resolution: u8,
    pub next_idx: usize,
    pub indices: [usize; 3],
}

impl SubBandIter {
    /// The sub-band indices that remain.
    pub open spec fn remaining(&self) -> Seq<usize> {
        let n: int = if self.resolution == 0 { 1 } else { 3 };
        if self.next_idx >= n {
            Seq::empty()
        } else {
            self.indices@.subrange(self.next_idx as int, n)
        }
    }

    /// The next sub-band index.
    pub fn next(&mut self) -> (r: Option<usize>)
        requires
            old(self).next_idx < usize::MAX,
        ensures
            final(self).resolution == old(self).resolution,
            final(self).indices == old(self).indices,
            final(self).next_idx == old(self).next_idx + 1,
            old(self).remaining().len() == 0 ==> r is None,
            old(self).remaining().len() > 0 ==> r == Some(old(self).remaining()[0]),
    {
        let value = if self.resolution == 0 {
            if self.next_idx > 0 {
                None
            } else {
                Some(self.indices[0])
            }
        } else if self.next_idx >= 3 {
            None
        } else {
            Some(self.indices[self.next_idx])
        };
        self.next_idx = self.next_idx + 1;
        value
    }
}

impl TileDecompositions {
    /// The sub-bands of `resolution`: resolution 0 holds only the LL
    /// sub-band, every other resolution the three sub-bands of its
    /// decomposition.
    pub fn sub_band_iter(&self, resolution: u8, decompositions: &Vec<Decomposition>) -> (r: SubBandIter)
        requires
            self.decompositions.start <= self.decompositions.end <= decompositions@.len(),
            resolution == 0 || resolution - 1 < self.decompositions.end - self.decompositions.start,
        ensures
            r.resolution == resolution,
            r.next_idx == 0,
            resolution == 0 ==> r.remaining() == seq![self.first_ll_sub_band],
            resolution > 0 ==> r.remaining() == decompositions@[self.decompositions.start + resolution - 1].sub_bands@,
    {
        let indices = if resolution == 0 {
            [self.first_ll_sub_band, self.first_ll_sub_band, self.first_ll_sub_band]
        } else {
            decompositions[self.decompositions.start + resolution as usize - 1].sub_bands
        };
        let r = SubBandIter { next_idx: 0, indices, resolution };
        proof {
            if resolution == 0 {
                assert(r.remaining() =~= seq![self.first_ll_sub_band]);
            } else {
                assert(r.remaining() =~= indices@);
            }
        }
        r
    }
}

/// A buffer so that we can reuse allocations for layers/code blocks/etc.
/// across different tiles. The coefficients are the integer values that
/// the bitplanes give, before dequantization.
pub struct DecompositionStorage<'a> {
    pub segments: Vec<Segment<'a>>,
    pub layers: Vec<Layer>,
    pub code_blocks: Vec<CodeBlock>,
    pub precincts: Vec<Precinct>,
    pub tag_tree_nodes: Vec<TagNode>,
    pub coefficients: Vec<i32>,
    pub sub_bands: Vec<SubBand>,
    pub decompositions: Vec<Decomposition>,
    pub tile_decompositions: Vec<TileDecompositions>,
}

impl<'a> DecompositionStorage<'a> {
    /// Every code-block has a well-formed rectangle no larger than a
    /// code-block may be.
    pub open spec fn blocks_ok(&self) -> bool {
        forall|k: int|
            0 <= k < self.code_blocks@.len() ==> {
                let r = (#[trigger] self.code_blocks@[k]).rect;
                &&& r.wf()
                &&& r.spec_width() <= crate::j2c::bitplane::MAX_CODE_BLOCK_SIZE
                &&& r.spec_height() <= crate::j2c::bitplane::MAX_CODE_BLOCK_SIZE
            }
    }

    /// The precincts refer to code-blocks of the storage, their tag trees
    /// are stored in the tag tree nodes, and each code-block of a precinct
    /// has a place in both trees.
    pub open spec fn trees_ok(&self) -> bool {
        forall|p: int|
            0 <= p < self.precincts@.len() ==> {
                let pr = #[trigger] self.precincts@[p];
                &&& pr.code_inclusion_tree.wf(self.tag_tree_nodes@)
                &&& pr.zero_bitplane_tree.wf(self.tag_tree_nodes@)
                &&& pr.code_blocks.start <= pr.code_blocks.end <= self.code_blocks@.len()
                &&& forall|k: int|
                    pr.code_blocks.start <= k < pr.code_blocks.end ==> {
                        &&& (#[trigger] self.code_blocks@[k]).x_idx < pr.code_inclusion_tree.width
                        &&& self.code_blocks@[k].y_idx < pr.code_inclusion_tree.height
                        &&& self.code_blocks@[k].x_idx < pr.zero_bitplane_tree.width
                        &&& self.code_blocks@[k].y_idx < pr.zero_bitplane_tree.height
                    }
            }
    }

    /// Empty storage.
    pub fn new() -> (r: Self)
        ensures
            r.segments@.len() == 0,
            r.layers@.len() == 0,
            r.code_blocks@.len() == 0,
            r.precincts@.len() == 0,
            r.tag_tree_nodes@.len() == 0,
            r.coefficients@.len() == 0,
            r.sub_bands@.len() == 0,
            r.decompositions@.len() == 0,
            r.tile_decompositions@.len() == 0,
    {
        DecompositionStorage {
            segments: Vec::new(),
            layers: Vec::new(),
            code_blocks: Vec::new(),
            precincts: Vec::new(),
            tag_tree_nodes: Vec::new(),
            coefficients: Vec::new(),
            sub_bands: Vec::new(),
            decompositions: Vec::new(),
            tile_decompositions: Vec::new(),
        }
    }

    /// Clear everything but the coefficients, which are resized and
    /// overwritten for the next tile.
    pub fn reset(&mut self)
        ensures
            final(self).segments@.len() == 0,
            final(self).layers@.len() == 0,
            final(self).code_blocks@.len() == 0,
            final(self).precincts@.len() == 0,
            final(self).tag_tree_nodes@.len() == 0,
            final(self).coefficients == old(self).coefficients,
            final(self).sub_bands@.len() == 0,
            final(self).decompositions@.len() == 0,
            final(self).tile_decompositions@.len() == 0,
    {
        self.segments.clear();
        self.layers.clear();
        self.code_blocks.clear();
        // No need to clear the coefficients, as they will be resized
        // and then overridden.
        self.precincts.clear();
        self.sub_bands.clear();
        self.decompositions.clear();
        self.tile_decompositions.clear();
        self.tag_tree_nodes.clear();
    }
}

/// A reusable context used during the decoding of a single tile.
pub struct TileDecodeContext {
    /// A reusable context for decoding code blocks.
    pub bit_plane_decode_context: BitPlaneDecodeContext,
    /// Reusable buffers for decoding bitplanes.
    pub bit_plane_decode_buffers: BitPlaneDecodeBuffers,
}

impl TileDecodeContext {
    /// A fresh context.
    pub fn new() -> (r: Self)
        ensures
            r.bit_plane_decode_context.wf(),
            r.bit_plane_decode_context.width == 0,
            r.bit_plane_decode_context.height == 0,
            r.bit_plane_decode_context.bitplanes == 0,
            r.bit_plane_decode_context.max_coding_passes == 0,
            r.bit_plane_decode_buffers.combined_layers@.len() == 0,
            r.bit_plane_decode_buffers.segment_ranges@ == seq![0usize],
            r.bit_plane_decode_buffers.segment_coding_passes@ == seq![0u8],
    {
        TileDecodeContext {
            bit_plane_decode_context: BitPlaneDecodeContext::new(),
            bit_plane_decode_buffers: BitPlaneDecodeBuffers::new(),
        }
    }
}

/// The number of bitplanes of a sub-band (E-2): the guard bits plus the
/// exponent of its quantization step size, less one. It must be positive
/// and at most `MAX_BITPLANE_COUNT`.
pub open spec fn spec_num_bitplanes(info: &ComponentInfo, sub_band_type: SubBandType, resolution: u8) -> Result<u8> {
    match info.spec_exponent_mantissa(sub_band_type, resolution) {
        Err(e) => Err(e),
        Ok((exponent, _)) => {
            let sum = info.quantization_info.guard_bits + exponent;
            if sum > u16::MAX || sum < 1 {
                Err(DecodeError::Decoding(DecodingError::InvalidBitplaneCount))
            } else if sum - 1 > MAX_BITPLANE_COUNT {
                Err(DecodeError::Decoding(DecodingError::TooManyBitplanes))
            } else {
                Ok((sum - 1) as u8)
            }
        },
    }
}

/// The number of bitplanes of a sub-band (E-2).
pub fn num_bitplanes(info: &ComponentInfo, sub_band_type: SubBandType, resolution: u8) -> (r: Result<u8>)
    requires
        resolution <= info.spec_num_decomposition_levels() + 1,
    ensures
        r == spec_num_bitplanes(info, sub_band_type, resolution),
{
    let exponent = match info.exponent_mantissa(sub_band_type, resolution) {
        Ok((e, _)) => e,
        Err(e) => return Err(e),
    };
    // Equation (E-2)
    let num_bitplanes = match (info.quantization_info.guard_bits as u16).checked_add(exponent) {
        Some(x) => match x.checked_sub(1) {
            Some(n) => n,
            None => return Err(DecodeError::Decoding(DecodingError::InvalidBitplaneCount)),
        },
        None => return Err(DecodeError::Decoding(DecodingError::InvalidBitplaneCount)),
    };
    if num_bitplanes > MAX_BITPLANE_COUNT as u16 {
        return Err(DecodeError::Decoding(DecodingError::TooManyBitplanes));
    }
    Ok(num_bitplanes as u8)
}

/// The gain of a sub-band as the number of its high-pass filterings
/// (Table E.1).
pub open spec fn spec_log_gain(sub_band_type: SubBandType) -> int {
    match sub_band_type {
        SubBandType::LowLow => 0,
        SubBandType::LowHigh | SubBandType::HighLow => 1,
        SubBandType::HighHigh => 2,
    }
}

/// The quantization step of a sub-band (E-3) is `2^(R_b - e_b) * (1 +
/// m_b / 2^11)`, with `R_b` the precision of the component plus the gain
/// of the sub-band: this gives `R_b - e_b` and `m_b`, or `None` when the
/// component is not quantized and the step is one.
pub fn quantization_step(info: &ComponentInfo, sub_band_type: SubBandType, resolution: u8) -> (r: Result<Option<(i32, u16)>>)
    requires
        resolution <= info.spec_num_decomposition_levels() + 1,
    ensures
        info.quantization_info.quantization_style == QuantizationStyle::NoQuantization ==> r == Ok::<Option<(i32, u16)>, DecodeError>(None),
        info.quantization_info.quantization_style != QuantizationStyle::NoQuantization ==> match info.spec_exponent_mantissa(sub_band_type, resolution) {
            Err(e) => r == Err::<Option<(i32, u16)>, DecodeError>(e),
            Ok((e, m)) => r == Ok::<Option<(i32, u16)>, DecodeError>(Some(((info.size_info.precision + spec_log_gain(sub_band_type) - e) as i32, m))),
        },
{
    if info.quantization_info.quantization_style == QuantizationStyle::NoQuantization {
        return Ok(None);
    }
    let (exponent, mantissa) = match info.exponent_mantissa(sub_band_type, resolution) {
        Ok(v) => v,
        Err(e) => return Err(e),
    };
    let r_b = info.size_info.precision as i32 + log_gain(sub_band_type) as i32;
    Ok(Some((r_b - exponent as i32, mantissa)))
}

/// Everything but the coefficients stays as it is.
pub open spec fn structure_kept(a: &DecompositionStorage, b: &DecompositionStorage) -> bool {
    &&& b.segments == a.segments
    &&& b.layers == a.layers
    &&& b.code_blocks == a.code_blocks
    &&& b.precincts == a.precincts
    &&& b.tag_tree_nodes == a.tag_tree_nodes
    &&& b.sub_bands == a.sub_bands
    &&& b.decompositions == a.decompositions
    &&& b.tile_decompositions == a.tile_decompositions
    &&& b.coefficients@.len() == a.coefficients@.len()
}

/// Where column `x` and row `y` of a sub-band whose coefficients start at
/// `c`, in rows of `stride`, lie.
pub open spec fn sb_index(c: int, stride: int, x: int, y: int) -> int {
    c + y * stride + x
}

/// Index `i` of such coefficients lies in the block of columns
/// `x0..x0 + w` and rows `y0..y0 + h`.
pub open spec fn in_block(i: int, c: int, stride: int, x0: int, y0: int, w: int, h: int) -> bool {
    &&& i >= c
    &&& x0 <= (i - c) % stride < x0 + w
    &&& y0 <= (i - c) / stride < y0 + h
}

/// The decoded value of coefficient (`x`, `y`) of a code-block `w` columns
/// wide.
pub open spec fn plane_value(ps: crate::j2c::passes::PlaneState, w: int, x: int, y: int) -> int {
    ps.coefficients[bitplane::grid_index(x + 1, y + 1, w + 2)].value()
}

proof fn lemma_sb_index(c: int, stride: int, x: int, y: int, h: int)
    requires
        stride > 0,
        0 <= x < stride,
        0 <= y < h,
    ensures
        (sb_index(c, stride, x, y) - c) % stride == x,
        (sb_index(c, stride, x, y) - c) / stride == y,
        c <= sb_index(c, stride, x, y) < c + h * stride,
{
    vstd::arithmetic::div_mod::lemma_fundamental_div_mod_converse(sb_index(c, stride, x, y) - c, stride, y, x);
    assert(0 <= y * stride && y * stride + stride <= h * stride) by (nonlinear_arith)
        requires 0 <= y < h, stride > 0;
}

/// The code-block lies within the sub-band, and each of its coefficients
/// holds the value of the decoded plane `ps` at its place in the
/// coefficients of the sub-band.
pub open spec fn block_stored(coeffs: Seq<i32>, sb: SubBand, cb: CodeBlock, ps: crate::j2c::passes::PlaneState) -> bool {
    &&& sb.rect.x0 <= cb.rect.x0
    &&& sb.rect.y0 <= cb.rect.y0
    &&& cb.rect.x1 <= sb.rect.x1
    &&& cb.rect.y1 <= sb.rect.y1
    &&& forall|x: int, y: int|
        0 <= x < cb.rect.spec_width() && 0 <= y < cb.rect.spec_height() ==> coeffs[#[trigger] sb_index(
            sb.coefficients.start as int,
            sb.rect.spec_width(),
            cb.rect.x0 - sb.rect.x0 + x,
            cb.rect.y0 - sb.rect.y0 + y,
        )] == plane_value(ps, cb.rect.spec_width(), x, y)
}

/// Code-block `k` of the storage `s` decodes, with `bitplanes` bitplanes,
/// and its coefficients are stored in `coeffs` at its place in sub-band
/// `sb`.
pub open spec fn block_decoded_stored(
    coeffs: Seq<i32>,
    s: &DecompositionStorage,
    sb: SubBand,
    k: int,
    bitplanes: u8,
    style: crate::j2c::codestream::CodeBlockStyle,
    strict: bool,
) -> bool {
    bitplane::decoded_code_block(s.code_blocks@[k], sb.sub_band_type, bitplanes, style, strict, s.layers@, s.segments@) matches Some(
        ps,
    ) && block_stored(coeffs, sb, s.code_blocks@[k], ps)
}

/// Two rectangles share no position.
pub open spec fn rects_apart(a: crate::j2c::rect::IntRect, b: crate::j2c::rect::IntRect) -> bool {
    a.x1 <= b.x0 || b.x1 <= a.x0 || a.y1 <= b.y0 || b.y1 <= a.y0
}

/// Code-block `k` is listed in precinct `p` of sub-band `sb`.
pub open spec fn block_of(s: &DecompositionStorage, sb: SubBand, p: int, k: int) -> bool {
    &&& sb.precincts.start <= p < sb.precincts.end
    &&& s.precincts@[p].code_blocks.start <= k < s.precincts@[p].code_blocks.end
}

/// The code-blocks listed in the precincts of sub-band `sb` are listed
/// once and cover no position twice.
pub open spec fn blocks_apart(s: &DecompositionStorage, sb: SubBand) -> bool {
    forall|p1: int, k1: int, p2: int, k2: int|
        #[trigger] block_of(s, sb, p1, k1) && #[trigger] block_of(s, sb, p2, k2) && (p1 != p2 || k1 != k2) ==> k1 != k2
            && rects_apart(s.code_blocks@[k1].rect, s.code_blocks@[k2].rect)
}

/// The number of bitplanes of a sub-band, where it has one.
pub open spec fn bits_of(info: &ComponentInfo, t: SubBandType, resolution: u8) -> u8 {
    match spec_num_bitplanes(info, t, resolution) {
        Ok(n) => n,
        Err(_) => 0,
    }
}

/// Storing a block that lies within a sub-band of `w` by `h` changes only
/// coefficients of the sub-band.
proof fn lemma_store_block_kept(
    before: Seq<i32>,
    after: Seq<i32>,
    c: int,
    c_end: int,
    w: int,
    h: int,
    x0: int,
    y0: int,
    bw: int,
    bh: int,
)
    requires
        0 <= c,
        c + w * h <= c_end,
        0 <= x0,
        0 <= y0,
        x0 + bw <= w,
        y0 + bh <= h,
        after.len() == before.len(),
        forall|i: int| 0 <= i < before.len() && !in_block(i, c, w, x0, y0, bw, bh) ==> #[trigger] after[i] == before[i],
        bw == 0 ==> after == before,
    ensures
        forall|i: int| 0 <= i < before.len() && !(c <= i < c_end) ==> #[trigger] after[i] == before[i],
{
    assert forall|i: int| 0 <= i < before.len() && !(c <= i < c_end) implies #[trigger] after[i] == before[i] by {
        if bw > 0 && in_block(i, c, w, x0, y0, bw, bh) {
            vstd::arithmetic::div_mod::lemma_fundamental_div_mod(i - c, w);
            let q = (i - c) / w;
            let r = (i - c) % w;
            assert(i - c < w * h) by (nonlinear_arith)
                requires i - c == w * q + r, r < w, q < h, q >= 0, w > 0;
        }
    }
}

/// Copy the coefficients of a decoded code-block of `width` by `height`
/// into a sub-band whose coefficients start at `c` with rows of `stride`,
/// at column `x0` and row `y0`: the rest stays as it is.
fn store_block(
    coefficients: &mut Vec<i32>,
    ctx: &BitPlaneDecodeContext,
    c: u64,
    stride: u64,
    x0: u64,
    y0: u64,
    width: u64,
    height: u64,
)
    requires
        ctx.wf(),
        ctx.width == width,
        ctx.height == height,
        x0 + width <= stride,
        c + (y0 + height) * stride <= old(coefficients)@.len(),
        y0 + height <= 0xffff_ffff,
        stride <= 0xffff_ffff,
    ensures
        final(coefficients)@.len() == old(coefficients)@.len(),
        forall|x: int, y: int|
            0 <= x < width && 0 <= y < height ==> final(coefficients)@[#[trigger] sb_index(c as int, stride as int, x0 + x, y0 + y)]
                == plane_value(ctx.plane(), width as int, x, y),
        forall|i: int|
            0 <= i < old(coefficients)@.len() && !in_block(i, c as int, stride as int, x0 as int, y0 as int, width as int, height as int)
                ==> #[trigger] final(coefficients)@[i] == old(coefficients)@[i],
        width == 0 ==> final(coefficients)@ == old(coefficients)@,
{
    let ghost c0 = coefficients@;
    let total = coefficients.len();
    let mut y: u64 = 0;
    while y < height
        invariant
            y <= height,
            ctx.wf(),
            ctx.width == width,
            ctx.height == height,
            x0 + width <= stride,
            c + (y0 + height) * stride <= c0.len(),
            c0.len() == total,
            y0 + height <= 0xffff_ffff,
            stride <= 0xffff_ffff,
            coefficients@.len() == c0.len(),
            width == 0 ==> coefficients@ == c0,
            forall|x: int, yy: int|
                0 <= x < width && 0 <= yy < y ==> coefficients@[#[trigger] sb_index(c as int, stride as int, x0 + x, y0 + yy)]
                    == plane_value(ctx.plane(), width as int, x, yy),
            forall|i: int|
                0 <= i < c0.len() && !in_block(i, c as int, stride as int, x0 as int, y0 as int, width as int, y as int)
                    ==> #[trigger] coefficients@[i] == c0[i],
        decreases height - y,
    {
        assert((y0 + y) * stride + stride <= (y0 + height) * stride) by (nonlinear_arith)
            requires y0 + y < y0 + height, stride >= 0;
        let row = c + (y0 + y) * stride + x0;
        let mut x: u64 = 0;
        while x < width
            invariant
                x <= width,
                y < height,
                ctx.wf(),
                ctx.width == width,
                ctx.height == height,
                x0 + width <= stride,
                row == c + (y0 + y) * stride + x0,
                row + width <= c + (y0 + y) * stride + stride,
                c + (y0 + y) * stride + stride <= c0.len(),
                c + (y0 + height) * stride <= c0.len(),
                c0.len() == total,
                coefficients@.len() == c0.len(),
                forall|xx: int, yy: int|
                    0 <= xx < width && 0 <= yy < y ==> coefficients@[#[trigger] sb_index(c as int, stride as int, x0 + xx, y0 + yy)]
                        == plane_value(ctx.plane(), width as int, xx, yy),
                forall|xx: int|
                    0 <= xx < x ==> coefficients@[#[trigger] sb_index(c as int, stride as int, x0 + xx, y0 + y)] == plane_value(
                        ctx.plane(),
                        width as int,
                        xx,
                        y as int,
                    ),
                forall|i: int|
                    0 <= i < c0.len() && !in_block(i, c as int, stride as int, x0 as int, y0 as int, width as int, y as int)
                        && !in_block(i, c as int, stride as int, x0 as int, (y0 + y) as int, x as int, 1) ==> #[trigger] coefficients@[i]
                        == c0[i],
            decreases width - x,
        {
            let value = ctx.coefficient(x as u32, y as u32);
            let ghost before = coefficients@;
            let ghost idx = sb_index(c as int, stride as int, x0 + x, y0 + y);
            assert(row + x == idx);
            coefficients.set((row + x) as usize, value);
            proof {
                lemma_sb_index(c as int, stride as int, (x0 + x) as int, (y0 + y) as int, (y0 + height) as int);
                assert forall|xx: int, yy: int|
                    0 <= xx < width && 0 <= yy < y implies coefficients@[#[trigger] sb_index(c as int, stride as int, x0 + xx, y0 + yy)]
                        == plane_value(ctx.plane(), width as int, xx, yy) by {
                    lemma_sb_index(c as int, stride as int, x0 + xx, y0 + yy, (y0 + height) as int);
                    assert(before[sb_index(c as int, stride as int, x0 + xx, y0 + yy)] == plane_value(ctx.plane(), width as int, xx, yy));
                }
                assert forall|xx: int| 0 <= xx < x + 1 implies coefficients@[#[trigger] sb_index(c as int, stride as int, x0 + xx, y0 + y)]
                    == plane_value(ctx.plane(), width as int, xx, y as int) by {
                    lemma_sb_index(c as int, stride as int, x0 + xx, (y0 + y) as int, (y0 + height) as int);
                }
                assert forall|i: int|
                    0 <= i < c0.len() && !in_block(i, c as int, stride as int, x0 as int, y0 as int, width as int, y as int)
                        && !in_block(i, c as int, stride as int, x0 as int, (y0 + y) as int, (x + 1) as int, 1) implies #[trigger] coefficients@[i]
                        == c0[i] by {
                    assert(i != idx);
                    assert(before[i] == c0[i]);
                }
            }
            x = x + 1;
        }
        proof {
            assert forall|i: int|
                0 <= i < c0.len() && !in_block(i, c as int, stride as int, x0 as int, y0 as int, width as int, (y + 1) as int)
                    implies #[trigger] coefficients@[i] == c0[i] by {
                assert(!in_block(i, c as int, stride as int, x0 as int, y0 as int, width as int, y as int));
                assert(!in_block(i, c as int, stride as int, x0 as int, (y0 + y) as int, width as int, 1));
            }
        }
        y = y + 1;
    }
}

/// Decode the bitplanes of every code-block of a sub-band and store the
/// coefficients at the place of each code-block in the sub-band. A
/// code-block must lie within its sub-band and the sub-band within the
/// storage.
fn decode_sub_band_bitplanes(
    sub_band_idx: usize,
    resolution: u8,
    component_info: &ComponentInfo,
    tile_ctx: &mut TileDecodeContext,
    storage: &mut DecompositionStorage<'_>,
    header: &Header<'_>,
) -> (r: Result<()>)
    requires
        old(storage).blocks_ok(),
        sub_band_idx < old(storage).sub_bands@.len(),
        resolution <= component_info.spec_num_decomposition_levels() + 1,
    ensures
        structure_kept(&*old(storage), &*final(storage)),
        forall|i: int|
            0 <= i < old(storage).coefficients@.len() && !(old(storage).sub_bands@[sub_band_idx as int].coefficients.start <= i
                < old(storage).sub_bands@[sub_band_idx as int].coefficients.end) ==> #[trigger] final(storage).coefficients@[i]
                == old(storage).coefficients@[i],
        spec_num_bitplanes(component_info, old(storage).sub_bands@[sub_band_idx as int].sub_band_type, resolution) matches Err(
            e,
        ) ==> r == Err::<(), DecodeError>(e),
        ({
            let sb = old(storage).sub_bands@[sub_band_idx as int];
            r is Ok ==> sb.rect.wf() && sb.coefficients.start <= sb.coefficients.end <= old(storage).coefficients@.len()
                && sb.rect.spec_width() * sb.rect.spec_height() <= sb.coefficients.end - sb.coefficients.start
        }),
        ({
            let sb = old(storage).sub_bands@[sub_band_idx as int];
            r is Ok && blocks_apart(&*old(storage), sb) ==> forall|p: int, k: int|
                #[trigger] block_of(&*old(storage), sb, p, k) ==> block_decoded_stored(
                    final(storage).coefficients@,
                    &*old(storage),
                    sb,
                    k,
                    bits_of(component_info, sb.sub_band_type, resolution),
                    component_info.coding_style.parameters.code_block_style,
                    header.strict,
                )
        }),
{
    let sub_band_type = storage.sub_bands[sub_band_idx].sub_band_type;
    let sb_rect = storage.sub_bands[sub_band_idx].rect;
    let p_start = storage.sub_bands[sub_band_idx].precincts.start;
    let p_end = storage.sub_bands[sub_band_idx].precincts.end;
    let c_start = storage.sub_bands[sub_band_idx].coefficients.start;
    let c_end = storage.sub_bands[sub_band_idx].coefficients.end;

    let num_bitplanes = match num_bitplanes(component_info, sub_band_type, resolution) {
        Ok(n) => n,
        Err(e) => return Err(e),
    };

    // The sub-band must have its place in the storage.
    if sb_rect.x1 < sb_rect.x0 || sb_rect.y1 < sb_rect.y0 || c_start > c_end || c_end > storage.coefficients.len()
        || p_start > p_end || p_end > storage.precincts.len() {
        return Err(DecodeError::Decoding(DecodingError::CodeBlockDecodeFailure));
    }
    let sb_width = sb_rect.width() as u64;
    let sb_height = sb_rect.height() as u64;
    assert(sb_width * sb_height <= 0xffff_ffff * 0xffff_ffff) by (nonlinear_arith)
        requires sb_width <= 0xffff_ffff, sb_height <= 0xffff_ffff;
    if sb_width * sb_height > (c_end - c_start) as u64 {
        return Err(DecodeError::Decoding(DecodingError::CodeBlockDecodeFailure));
    }
    let style = component_info.coding_style.parameters.code_block_style;
    let ghost s0 = *storage;
    let ghost sb = s0.sub_bands@[sub_band_idx as int];
    let ghost bits = bits_of(component_info, sb.sub_band_type, resolution);
    let ghost apart = blocks_apart(&s0, sb);
    let ghost bits_ok = spec_num_bitplanes(component_info, s0.sub_bands@[sub_band_idx as int].sub_band_type, resolution) is Ok;
    assert(bits_ok);

    let mut p = p_start;
    while p < p_end
        invariant
            p_end <= storage.precincts@.len(),
            storage.blocks_ok(),
            structure_kept(&s0, &*storage),
            s0.blocks_ok(),
            s0 == *old(storage),
            bits_ok == (spec_num_bitplanes(component_info, s0.sub_bands@[sub_band_idx as int].sub_band_type, resolution) is Ok),
            bits_ok,
            c_start <= c_end <= storage.coefficients@.len(),
            sb_width * sb_height <= c_end - c_start,
            sb_width == sb_rect.spec_width(),
            sb_height == sb_rect.spec_height(),
            sb_rect.x0 <= sb_rect.x1,
            sb_rect.y0 <= sb_rect.y1,
            num_bitplanes <= 32,
            c_start == s0.sub_bands@[sub_band_idx as int].coefficients.start,
            c_end == s0.sub_bands@[sub_band_idx as int].coefficients.end,
            forall|i: int| 0 <= i < s0.coefficients@.len() && !(c_start <= i < c_end) ==> #[trigger] storage.coefficients@[i] == s0.coefficients@[i],
            sb == s0.sub_bands@[sub_band_idx as int],
            bits == bits_of(component_info, sb.sub_band_type, resolution),
            apart == blocks_apart(&s0, sb),
            p_start == sb.precincts.start,
            p_end == sb.precincts.end,
            sub_band_type == sb.sub_band_type,
            sb_rect == sb.rect,
            num_bitplanes == bits,
            style == component_info.coding_style.parameters.code_block_style,
            p_start <= p <= p_end,
            apart ==> forall|pp: int, k: int|
                #[trigger] block_of(&s0, sb, pp, k) && pp < p ==> block_decoded_stored(
                    storage.coefficients@,
                    &s0,
                    sb,
                    k,
                    bits,
                    style,
                    header.strict,
                ),
        decreases p_end - p,
    {
        let cb_start = storage.precincts[p].code_blocks.start;
        let cb_end = storage.precincts[p].code_blocks.end;
        if cb_start > cb_end || cb_end > storage.code_blocks.len() {
            return Err(DecodeError::Decoding(DecodingError::CodeBlockDecodeFailure));
        }
        let mut cb = cb_start;
        while cb < cb_end
            invariant
                cb_end <= storage.code_blocks@.len(),
                storage.blocks_ok(),
                structure_kept(&s0, &*storage),
                s0.blocks_ok(),
                s0 == *old(storage),
                bits_ok == (spec_num_bitplanes(component_info, s0.sub_bands@[sub_band_idx as int].sub_band_type, resolution) is Ok),
                bits_ok,
                c_start <= c_end <= storage.coefficients@.len(),
                sb_width * sb_height <= c_end - c_start,
                sb_width == sb_rect.spec_width(),
                sb_height == sb_rect.spec_height(),
                sb_rect.x0 <= sb_rect.x1,
                sb_rect.y0 <= sb_rect.y1,
                num_bitplanes <= 32,
                c_start == s0.sub_bands@[sub_band_idx as int].coefficients.start,
                c_end == s0.sub_bands@[sub_band_idx as int].coefficients.end,
                forall|i: int| 0 <= i < s0.coefficients@.len() && !(c_start <= i < c_end) ==> #[trigger] storage.coefficients@[i] == s0.coefficients@[i],
                sb == s0.sub_bands@[sub_band_idx as int],
                bits == bits_of(component_info, sb.sub_band_type, resolution),
                apart == blocks_apart(&s0, sb),
                p_start == sb.precincts.start,
                p_end == sb.precincts.end,
                sub_band_type == sb.sub_band_type,
                sb_rect == sb.rect,
                num_bitplanes == bits,
                style == component_info.coding_style.parameters.code_block_style,
                p_start <= p < p_end,
                cb_start == s0.precincts@[p as int].code_blocks.start,
                cb_end == s0.precincts@[p as int].code_blocks.end,
                cb_start <= cb <= cb_end,
                apart ==> forall|pp: int, k: int|
                    #[trigger] block_of(&s0, sb, pp, k) && (pp < p || (pp == p && k < cb)) ==> block_decoded_stored(
                        storage.coefficients@,
                        &s0,
                        sb,
                        k,
                        bits,
                        style,
                        header.strict,
                    ),
            decreases cb_end - cb,
        {
            let cb_rect = storage.code_blocks[cb].rect;
            assert(cb_rect.wf() && cb_rect.spec_width() <= MAX_CODE_BLOCK_SIZE && cb_rect.spec_height() <= MAX_CODE_BLOCK_SIZE);
            match bitplane::decode(
                &storage.code_blocks[cb],
                sub_band_type,
                num_bitplanes,
                &style,
                tile_ctx,
                &*storage,
                header.strict,
            ) {
                Ok(()) => {},
                Err(e) => return Err(e),
            }

            // Turn the signs and magnitudes into singular coefficients and
            // copy them into the sub-band.
            if cb_rect.x0 < sb_rect.x0 || cb_rect.y0 < sb_rect.y0 {
                return Err(DecodeError::Decoding(DecodingError::CodeBlockDecodeFailure));
            }
            let x_offset = (cb_rect.x0 - sb_rect.x0) as u64;
            let y_offset = (cb_rect.y0 - sb_rect.y0) as u64;
            let width = cb_rect.width() as u64;
            let height = cb_rect.height() as u64;
            if x_offset + width > sb_width || y_offset + height > sb_height {
                return Err(DecodeError::Decoding(DecodingError::CodeBlockDecodeFailure));
            }
            let ghost before = storage.coefficients@;
            let ghost cur = s0.code_blocks@[cb as int];
            let ghost ps = tile_ctx.bit_plane_decode_context.plane();
            assert((y_offset + height) * sb_width <= sb_height * sb_width) by (nonlinear_arith)
                requires y_offset + height <= sb_height, sb_width >= 0;
            assert(sb_height * sb_width == sb_width * sb_height) by (nonlinear_arith);
            store_block(
                &mut storage.coefficients,
                &tile_ctx.bit_plane_decode_context,
                c_start as u64,
                sb_width,
                x_offset,
                y_offset,
                width,
                height,
            );
            proof {
                lemma_store_block_kept(
                    before,
                    storage.coefficients@,
                    c_start as int,
                    c_end as int,
                    sb_width as int,
                    sb_height as int,
                    x_offset as int,
                    y_offset as int,
                    width as int,
                    height as int,
                );
                assert(block_stored(storage.coefficients@, sb, cur, ps));
                if apart {
                    assert forall|pp: int, k: int|
                        #[trigger] block_of(&s0, sb, pp, k) && (pp < p || (pp == p && k < cb + 1)) implies block_decoded_stored(
                            storage.coefficients@,
                            &s0,
                            sb,
                            k,
                            bits,
                            style,
                            header.strict,
                        ) by {
                        if k == cb && pp == p {
                        } else {
                            assert(block_of(&s0, sb, p as int, cb as int));
                            let other = s0.code_blocks@[k];
                            assert(rects_apart(other.rect, cur.rect));
                            let ps_k = bitplane::decoded_code_block(other, sb.sub_band_type, bits, style, header.strict, s0.layers@, s0.segments@)->Some_0;
                            assert forall|x: int, y: int| 0 <= x < other.rect.spec_width() && 0 <= y < other.rect.spec_height() implies storage.coefficients@[#[trigger] sb_index(
                                sb.coefficients.start as int,
                                sb.rect.spec_width(),
                                other.rect.x0 - sb.rect.x0 + x,
                                other.rect.y0 - sb.rect.y0 + y,
                            )] == plane_value(ps_k, other.rect.spec_width(), x, y) by {
                                let i = sb_index(sb.coefficients.start as int, sb.rect.spec_width(), other.rect.x0 - sb.rect.x0 + x, other.rect.y0 - sb.rect.y0 + y);
                                lemma_sb_index(c_start as int, sb_width as int, other.rect.x0 - sb.rect.x0 + x, other.rect.y0 - sb.rect.y0 + y, sb_height as int);
                                assert(!in_block(i, c_start as int, sb_width as int, x_offset as int, y_offset as int, width as int, height as int));
                                assert(before[i] == plane_value(ps_k, other.rect.spec_width(), x, y));
                            }
                        }
                    }
                }
            }
            cb = cb + 1;
        }
        p = p + 1;
    }
    Ok(())
}

/// The sub-band of slot `j` of resolution `res` of component `c`: the LL
/// sub-band at resolution zero, else sub-band `j` of the decomposition.
pub open spec fn slot_sub_band(s: &DecompositionStorage, c: int, res: int, j: int) -> int {
    let td = s.tile_decompositions@[c];
    if res == 0 {
        td.first_ll_sub_band as int
    } else {
        s.decompositions@[td.decompositions.start + res - 1].sub_bands[j] as int
    }
}

/// Slot `j` of resolution `res` of component `c` is decoded: the
/// resolution is not skipped, and the slot is the LL sub-band at
/// resolution zero or one of three sub-bands above.
pub open spec fn slot_visited(tile: &Tile, header: &Header, c: int, res: int, j: int) -> bool {
    &&& 0 <= c < tile.component_infos@.len()
    &&& 0 <= res < tile.component_infos@[c].spec_num_resolution_levels() - header.skipped_resolution_levels
    &&& 0 <= j < (if res == 0 { 1int } else { 3int })
}

/// The decoded slots name sub-bands whose ranges of coefficients do not
/// overlap, each with its code-blocks apart.
pub open spec fn slots_apart(s: &DecompositionStorage, tile: &Tile, header: &Header) -> bool {
    &&& forall|c1: int, r1: int, j1: int, c2: int, r2: int, j2: int|
        #[trigger] slot_visited(tile, header, c1, r1, j1) && #[trigger] slot_visited(tile, header, c2, r2, j2) && (c1 != c2
            || r1 != r2 || j1 != j2) ==> ({
            let b1 = s.sub_bands@[slot_sub_band(s, c1, r1, j1)];
            let b2 = s.sub_bands@[slot_sub_band(s, c2, r2, j2)];
            b1.coefficients.end <= b2.coefficients.start || b2.coefficients.end <= b1.coefficients.start
        })
    &&& forall|c: int, r: int, j: int|
        #[trigger] slot_visited(tile, header, c, r, j) ==> blocks_apart(s, s.sub_bands@[slot_sub_band(s, c, r, j)])
}

/// The sub-band of the slot has its place in the coefficients.
pub open spec fn slot_geom(s: &DecompositionStorage, c: int, res: int, j: int) -> bool {
    let sb = s.sub_bands@[slot_sub_band(s, c, res, j)];
    &&& sb.rect.wf()
    &&& sb.coefficients.start <= sb.coefficients.end <= s.coefficients@.len()
    &&& sb.rect.spec_width() * sb.rect.spec_height() <= sb.coefficients.end - sb.coefficients.start
}

/// Every code-block of the sub-band of the slot decodes, and its
/// coefficients are stored in `coeffs` at its place in the sub-band.
pub open spec fn slot_stored(coeffs: Seq<i32>, s: &DecompositionStorage, tile: &Tile, header: &Header, c: int, res: int, j: int) -> bool {
    let sb = s.sub_bands@[slot_sub_band(s, c, res, j)];
    let info = tile.component_infos@[c];
    forall|p: int, k: int|
        #[trigger] block_of(s, sb, p, k) ==> block_decoded_stored(
            coeffs,
            s,
            sb,
            k,
            bits_of(&info, sb.sub_band_type, res as u8),
            info.coding_style.parameters.code_block_style,
            header.strict,
        )
}

/// What is stored of a code-block stays where its sub-band's coefficients
/// stay.
proof fn lemma_stored_kept(
    coeffs: Seq<i32>,
    coeffs2: Seq<i32>,
    s: &DecompositionStorage,
    sb: SubBand,
    k: int,
    bits: u8,
    style: crate::j2c::codestream::CodeBlockStyle,
    strict: bool,
)
    requires
        block_decoded_stored(coeffs, s, sb, k, bits, style, strict),
        sb.rect.wf(),
        sb.rect.spec_width() * sb.rect.spec_height() <= sb.coefficients.end - sb.coefficients.start,
        forall|i: int| sb.coefficients.start <= i < sb.coefficients.end ==> #[trigger] coeffs2[i] == coeffs[i],
    ensures
        block_decoded_stored(coeffs2, s, sb, k, bits, style, strict),
{
    let cb = s.code_blocks@[k];
    let ps = bitplane::decoded_code_block(cb, sb.sub_band_type, bits, style, strict, s.layers@, s.segments@)->Some_0;
    let w = sb.rect.spec_width();
    let h = sb.rect.spec_height();
    assert forall|x: int, y: int| 0 <= x < cb.rect.spec_width() && 0 <= y < cb.rect.spec_height() implies coeffs2[#[trigger] sb_index(
        sb.coefficients.start as int,
        w,
        cb.rect.x0 - sb.rect.x0 + x,
        cb.rect.y0 - sb.rect.y0 + y,
    )] == plane_value(ps, cb.rect.spec_width(), x, y) by {
        lemma_sb_index(sb.coefficients.start as int, w, cb.rect.x0 - sb.rect.x0 + x, cb.rect.y0 - sb.rect.y0 + y, h);
        assert(h * w == w * h) by (nonlinear_arith);
    }
}

/// Every component has as many resolution levels as the header skips:
/// nothing is left to decode.
pub open spec fn skips_all_levels(tile: &Tile, header: &Header) -> bool {
    forall|i: int|
        0 <= i < tile.component_infos@.len() ==> header.skipped_resolution_levels
            == (#[trigger] tile.component_infos@[i]).spec_num_resolution_levels()
}

/// Decode the bitplanes of the code-blocks of all components of a tile, for
/// the resolution levels that are not skipped.
fn decode_component_tile_bit_planes<'a>(
    tile: &Tile<'a>,
    tile_ctx: &mut TileDecodeContext,
    storage: &mut DecompositionStorage<'a>,
    header: &Header<'_>,
) -> (r: Result<()>)
    requires
        old(storage).blocks_ok(),
        forall|i: int| 0 <= i < tile.component_infos@.len() ==> (#[trigger] tile.component_infos@[i]).usable(),
    ensures
        structure_kept(&*old(storage), &*final(storage)),
        (exists|i: int|
            0 <= i < tile.component_infos@.len() && header.skipped_resolution_levels
                > (#[trigger] tile.component_infos@[i]).spec_num_resolution_levels()) ==> r is Err,
        r is Ok ==> forall|i: int|
            0 <= i < tile.component_infos@.len() ==> {
                &&& header.skipped_resolution_levels <= (#[trigger] tile.component_infos@[i]).spec_num_resolution_levels()
                &&& header.skipped_resolution_levels < tile.component_infos@[i].spec_num_resolution_levels() ==> i
                    < old(storage).tile_decompositions@.len()
            },
        skips_all_levels(tile, header) ==> r is Ok && *final(storage)
            == *old(storage),
        r is Ok && slots_apart(&*old(storage), tile, header) ==> forall|c: int, res: int, j: int|
            #[trigger] slot_visited(tile, header, c, res, j) ==> slot_stored(
                final(storage).coefficients@,
                &*old(storage),
                tile,
                header,
                c,
                res,
                j,
            ),
{
    let ghost s0 = *storage;
    let ghost apart = slots_apart(&s0, tile, header);
    let ghost all_skipped = skips_all_levels(tile, header);
    let mut idx: usize = 0;
    while idx < tile.component_infos.len()
        invariant
            storage.blocks_ok(),
            structure_kept(&s0, &*storage),
            s0 == *old(storage),
            forall|i: int| 0 <= i < tile.component_infos@.len() ==> (#[trigger] tile.component_infos@[i]).usable(),
            idx <= tile.component_infos@.len(),
            forall|i: int|
                0 <= i < idx ==> {
                    &&& header.skipped_resolution_levels <= (#[trigger] tile.component_infos@[i]).spec_num_resolution_levels()
                    &&& header.skipped_resolution_levels < tile.component_infos@[i].spec_num_resolution_levels() ==> i
                        < s0.tile_decompositions@.len()
                },
            all_skipped == skips_all_levels(tile, header),
            all_skipped ==> *storage == s0,
            apart == slots_apart(&s0, tile, header),
            apart ==> forall|c: int, res: int, j: int|
                #[trigger] slot_visited(tile, header, c, res, j) && c < idx ==> slot_stored(
                    storage.coefficients@,
                    &s0,
                    tile,
                    header,
                    c,
                    res,
                    j,
                ) && slot_geom(&s0, c, res, j),
        decreases tile.component_infos@.len() - idx,
    {
        let component_info = &tile.component_infos[idx];
        let levels = component_info.num_resolution_levels();
        if header.skipped_resolution_levels > levels {
            return Err(DecodeError::Tile(TileError::Invalid));
        }
        // Only decode the resolution levels we actually care about.
        let end = levels - header.skipped_resolution_levels;
        proof {
            if all_skipped {
                assert(header.skipped_resolution_levels == tile.component_infos@[idx as int].spec_num_resolution_levels());
            }
        }
        let mut resolution: u8 = 0;
        while resolution < end
            invariant
                storage.blocks_ok(),
                structure_kept(&s0, &*storage),
                s0 == *old(storage),
                component_info.usable(),
                end <= component_info.spec_num_resolution_levels(),
                resolution > 0 ==> idx < s0.tile_decompositions@.len(),
                all_skipped == skips_all_levels(tile, header),
                all_skipped ==> end == 0,
                all_skipped ==> *storage == s0,
                idx < tile.component_infos@.len(),
                component_info == &tile.component_infos@[idx as int],
                end == component_info.spec_num_resolution_levels() - header.skipped_resolution_levels,
                apart == slots_apart(&s0, tile, header),
                apart ==> forall|c: int, res: int, j: int|
                    #[trigger] slot_visited(tile, header, c, res, j) && (c < idx || (c == idx && res < resolution)) ==> slot_stored(
                        storage.coefficients@,
                        &s0,
                        tile,
                        header,
                        c,
                        res,
                        j,
                    ) && slot_geom(&s0, c, res, j),
            decreases end - resolution,
        {
            if idx >= storage.tile_decompositions.len() {
                return Err(DecodeError::Tile(TileError::Invalid));
            }
            let d_start = storage.tile_decompositions[idx].decompositions.start;
            let d_end = storage.tile_decompositions[idx].decompositions.end;
            if d_start > d_end || d_end > storage.decompositions.len() {
                return Err(DecodeError::Tile(TileError::Invalid));
            }
            if resolution > 0 && resolution as usize - 1 >= d_end - d_start {
                return Err(DecodeError::Tile(TileError::Invalid));
            }
            let sub_band_iter = storage.tile_decompositions[idx].sub_band_iter(resolution, &storage.decompositions);
            let count: usize = if resolution == 0 { 1 } else { 3 };
            proof {
                assert forall|j: int| 0 <= j < count implies sub_band_iter.indices[j] == slot_sub_band(
                    &s0,
                    idx as int,
                    resolution as int,
                    j,
                ) by {
                    assert(sub_band_iter.remaining()[j] == sub_band_iter.indices@[j]);
                }
            }
            let mut k: usize = 0;
            while k < count
                invariant
                    storage.blocks_ok(),
                    structure_kept(&s0, &*storage),
                    s0 == *old(storage),
                    component_info.usable(),
                    resolution < end <= component_info.spec_num_resolution_levels(),
                    count <= 3,
                    all_skipped == skips_all_levels(tile, header),
                    !all_skipped,
                    idx < tile.component_infos@.len(),
                    idx < s0.tile_decompositions@.len(),
                    component_info == &tile.component_infos@[idx as int],
                    end == component_info.spec_num_resolution_levels() - header.skipped_resolution_levels,
                    count == (if resolution == 0 { 1usize } else { 3usize }),
                    k <= count,
                    forall|j: int| 0 <= j < count ==> sub_band_iter.indices[j] == slot_sub_band(&s0, idx as int, resolution as int, j),
                    apart == slots_apart(&s0, tile, header),
                    apart ==> forall|c: int, res: int, j: int|
                        #[trigger] slot_visited(tile, header, c, res, j) && (c < idx || (c == idx && (res < resolution || (res
                            == resolution && j < k)))) ==> slot_stored(storage.coefficients@, &s0, tile, header, c, res, j)
                            && slot_geom(&s0, c, res, j),
                decreases count - k,
            {
                let sub_band_idx = sub_band_iter.indices[k];
                let ghost j_cur = k as int;
                k = k + 1;
                if sub_band_idx >= storage.sub_bands.len() {
                    return Err(DecodeError::Tile(TileError::Invalid));
                }
                let ghost before = *storage;
                match decode_sub_band_bitplanes(sub_band_idx, resolution, component_info, tile_ctx, storage, header) {
                    Ok(()) => {},
                    Err(e) => return Err(e),
                }
                proof {
                    assert(storage.blocks_ok()) by {
                        assert(storage.code_blocks == before.code_blocks);
                    }
                    if apart {
                        let cur_sb = s0.sub_bands@[sub_band_idx as int];
                        assert(sub_band_idx == slot_sub_band(&s0, idx as int, resolution as int, j_cur));
                        assert(slot_visited(tile, header, idx as int, resolution as int, j_cur));
                        assert(before.sub_bands == s0.sub_bands);
                        assert(blocks_apart(&s0, cur_sb));
                        assert(blocks_apart(&before, cur_sb)) by {
                            assert forall|p1: int, k1: int, p2: int, k2: int|
                                #[trigger] block_of(&before, cur_sb, p1, k1) && #[trigger] block_of(&before, cur_sb, p2, k2) && (p1
                                    != p2 || k1 != k2) implies k1 != k2 && rects_apart(
                                before.code_blocks@[k1].rect,
                                before.code_blocks@[k2].rect,
                            ) by {
                                assert(block_of(&s0, cur_sb, p1, k1) && block_of(&s0, cur_sb, p2, k2));
                            }
                        }
                        assert forall|c: int, res: int, j: int|
                            #[trigger] slot_visited(tile, header, c, res, j) && (c < idx || (c == idx && (res < resolution || (res
                                == resolution && j < k)))) implies slot_stored(storage.coefficients@, &s0, tile, header, c, res, j)
                            && slot_geom(&s0, c, res, j) by {
                            let sb = s0.sub_bands@[slot_sub_band(&s0, c, res, j)];
                            let info = tile.component_infos@[c];
                            if c == idx && res == resolution && j == j_cur {
                                assert forall|pp: int, kk: int| #[trigger] block_of(&s0, sb, pp, kk) implies block_decoded_stored(
                                    storage.coefficients@,
                                    &s0,
                                    sb,
                                    kk,
                                    bits_of(&info, sb.sub_band_type, res as u8),
                                    info.coding_style.parameters.code_block_style,
                                    header.strict,
                                ) by {
                                    assert(block_of(&before, sb, pp, kk));
                                }
                            } else {
                                assert forall|pp: int, kk: int| #[trigger] block_of(&s0, sb, pp, kk) implies block_decoded_stored(
                                    storage.coefficients@,
                                    &s0,
                                    sb,
                                    kk,
                                    bits_of(&info, sb.sub_band_type, res as u8),
                                    info.coding_style.parameters.code_block_style,
                                    header.strict,
                                ) by {
                                    assert(forall|i: int| sb.coefficients.start <= i < sb.coefficients.end ==> #[trigger] storage.coefficients@[i]
                                        == before.coefficients@[i]);
                                    lemma_stored_kept(
                                        before.coefficients@,
                                        storage.coefficients@,
                                        &s0,
                                        sb,
                                        kk,
                                        bits_of(&info, sb.sub_band_type, res as u8),
                                        info.coding_style.parameters.code_block_style,
                                        header.strict,
                                    );
                                }
                            }
                        }
                    }
                }
            }
            resolution = resolution + 1;
        }
        idx = idx + 1;
    }
    Ok(())
}

/// Decode the code-blocks of a tile into integer coefficients: build the
/// decompositions with their sub-bands, precincts and code-blocks, read the
/// packets of the tile in the order of the progression, and decode the
/// bitplanes of each code-block. The coefficients of each sub-band are
/// stored in its range of the coefficients of the storage.
pub fn decode_tile<'a>(
    tile: &'a Tile<'a>,
    header: &Header<'_>,
    progression: &mut ProgressionIterator<'_>,
    tile_ctx: &mut TileDecodeContext,
    storage: &mut DecompositionStorage<'a>,
) -> (r: Result<()>)
    requires
        tile.rect.wf(),
        forall|i: int| 0 <= i < tile.component_infos@.len() ==> (#[trigger] tile.component_infos@[i]).usable(),
        old(progression).wf(),
    ensures
        r is Ok ==> {
            &&& final(storage).tile_decompositions@.len() == tile.component_infos@.len()
            &&& forall|c: int|
                0 <= c < tile.component_infos@.len() ==> blocks::component_built(
                    &*final(storage),
                    #[trigger] final(storage).tile_decompositions@[c],
                    tile.component_tiles_spec()[c],
                )
            &&& blocks::coefficients_apart(&*final(storage), 0, final(storage).coefficients@.len() as int)
            &&& final(storage).trees_ok()
            &&& final(storage).blocks_ok()
        },
        r is Ok ==> blocks::tile_builds(tile.component_tiles_spec()),
        !blocks::tile_builds(tile.component_tiles_spec()) ==> r == Err::<(), DecodeError>(DecodeError::Tile(TileError::Invalid))
            || (r == Err::<(), DecodeError>(DecodeError::Decoding(DecodingError::InvalidPrecinct)) && !blocks::all_precincts_ok(
            tile.component_tiles_spec(),
        )),
        r is Ok && slots_apart(&*final(storage), tile, header) ==> forall|c: int, res: int, j: int|
            #[trigger] slot_visited(tile, header, c, res, j) ==> slot_stored(
                final(storage).coefficients@,
                &*final(storage),
                tile,
                header,
                c,
                res,
                j,
            ),
        blocks::tiles_area(tile.component_tiles_spec(), tile.component_infos@.len() as int) > usize::MAX ==> r == Err::<
            (),
            DecodeError,
        >(DecodeError::Tile(TileError::Invalid)),
        header.strict && (exists|i: int| 0 <= i < tile.tile_parts@.len() && !segment::tile_part_fits(#[trigger] tile.tile_parts@[i]))
            ==> r is Err,
        (exists|i: int|
            0 <= i < tile.component_infos@.len() && header.skipped_resolution_levels
                > (#[trigger] tile.component_infos@[i]).spec_num_resolution_levels()) ==> r is Err,
        blocks::tile_builds(tile.component_tiles_spec()) && segment::tile_parts_empty(tile) && skips_all_levels(tile, header)
            ==> r is Ok,
        r is Ok ==> exists|sts: Seq<DecompositionStorage>, prs: Seq<ProgressionIterator>|
            #[trigger] segment::tile_parts_read(sts, prs, tile, header.strict) && sts.len() == tile.tile_parts@.len() + 1 && prs[0]
                == *old(progression) && prs.last() == *final(progression) && structure_kept(&sts.last(), &*final(storage))
                && sts[0].tile_decompositions@.len() == tile.component_infos@.len() && (forall|c: int|
                0 <= c < tile.component_infos@.len() ==> blocks::component_built(
                    &sts[0],
                    #[trigger] sts[0].tile_decompositions@[c],
                    tile.component_tiles_spec()[c],
                )),
{
    storage.reset();

    // This is the method that orchestrates all steps.

    // First, we build the decompositions, including their sub-bands, precincts
    // and code blocks.
    match blocks::build(tile, storage) {
        Ok(()) => {},
        Err(e) => return Err(e),
    }
    let ghost built = *storage;
    // Next, we parse the layers/segments for each code block.
    match segment::parse(tile, progression, header, storage) {
        Ok(()) => {},
        Err(e) => return Err(e),
    }
    proof {
        assert(storage.blocks_ok()) by {
            assert forall|k: int| 0 <= k < storage.code_blocks@.len() implies ({
                let r = (#[trigger] storage.code_blocks@[k]).rect;
                &&& r.wf()
                &&& r.spec_width() <= MAX_CODE_BLOCK_SIZE
                &&& r.spec_height() <= MAX_CODE_BLOCK_SIZE
            }) by {
                assert(storage.code_blocks@[k].rect == built.code_blocks@[k].rect);
            }
        }
    }
    let ghost parsed = *storage;
    let ghost p_end = *progression;
    // We then decode the bitplanes of each code block, yielding the
    // coefficients of each code block.
    let r = decode_component_tile_bit_planes(tile, tile_ctx, storage, header);
    proof {
        assert(storage.code_blocks == parsed.code_blocks);
        assert(storage.precincts == parsed.precincts);
        assert(storage.tag_tree_nodes == parsed.tag_tree_nodes);
        assert(storage.sub_bands == built.sub_bands);
        assert(storage.decompositions == built.decompositions);
        assert(storage.tile_decompositions == built.tile_decompositions);
        assert(storage.coefficients@.len() == built.coefficients@.len());
        assert forall|c: int| 0 <= c < tile.component_infos@.len() implies blocks::component_built(
            &*storage,
            #[trigger] storage.tile_decompositions@[c],
            tile.component_tiles_spec()[c],
        ) by {
            assert(blocks::component_built(&built, built.tile_decompositions@[0 + c], tile.component_tiles_spec()[c]));
        }
        assert(blocks::coefficients_apart(&built, 0, built.coefficients@.len() as int));
        if r is Ok && slots_apart(&*storage, tile, header) {
            let fin = *storage;
            assert(slots_apart(&parsed, tile, header)) by {
                assert forall|c1: int, r1: int, j1: int, c2: int, r2: int, j2: int|
                    #[trigger] slot_visited(tile, header, c1, r1, j1) && #[trigger] slot_visited(tile, header, c2, r2, j2) && (c1 != c2
                        || r1 != r2 || j1 != j2) implies ({
                        let b1 = parsed.sub_bands@[slot_sub_band(&parsed, c1, r1, j1)];
                        let b2 = parsed.sub_bands@[slot_sub_band(&parsed, c2, r2, j2)];
                        b1.coefficients.end <= b2.coefficients.start || b2.coefficients.end <= b1.coefficients.start
                    }) by {
                    assert(slot_sub_band(&parsed, c1, r1, j1) == slot_sub_band(&fin, c1, r1, j1));
                    assert(slot_sub_band(&parsed, c2, r2, j2) == slot_sub_band(&fin, c2, r2, j2));
                }
                assert forall|c: int, r: int, j: int| #[trigger] slot_visited(tile, header, c, r, j) implies blocks_apart(
                    &parsed,
                    parsed.sub_bands@[slot_sub_band(&parsed, c, r, j)],
                ) by {
                    let sb = fin.sub_bands@[slot_sub_band(&fin, c, r, j)];
                    assert(slot_sub_band(&parsed, c, r, j) == slot_sub_band(&fin, c, r, j));
                    assert(blocks_apart(&fin, sb));
                    assert forall|p1: int, k1: int, p2: int, k2: int|
                        #[trigger] block_of(&parsed, sb, p1, k1) && #[trigger] block_of(&parsed, sb, p2, k2) && (p1 != p2 || k1
                            != k2) implies k1 != k2 && rects_apart(parsed.code_blocks@[k1].rect, parsed.code_blocks@[k2].rect) by {
                        assert(block_of(&fin, sb, p1, k1) && block_of(&fin, sb, p2, k2));
                    }
                }
            }
            assert forall|c: int, res: int, j: int| #[trigger] slot_visited(tile, header, c, res, j) implies slot_stored(
                fin.coefficients@,
                &fin,
                tile,
                header,
                c,
                res,
                j,
            ) by {
                assert(slot_stored(fin.coefficients@, &parsed, tile, header, c, res, j));
                assert(slot_sub_band(&parsed, c, res, j) == slot_sub_band(&fin, c, res, j));
                let sb = fin.sub_bands@[slot_sub_band(&fin, c, res, j)];
                let info = tile.component_infos@[c];
                assert forall|pp: int, kk: int| #[trigger] block_of(&fin, sb, pp, kk) implies block_decoded_stored(
                    fin.coefficients@,
                    &fin,
                    sb,
                    kk,
                    bits_of(&info, sb.sub_band_type, res as u8),
                    info.coding_style.parameters.code_block_style,
                    header.strict,
                ) by {
                    assert(block_of(&parsed, sb, pp, kk));
                }
            }
        }
        if r is Ok {
            let (sts, prs) = choose|sts: Seq<DecompositionStorage>, prs: Seq<ProgressionIterator>|
                #[trigger] segment::tile_parts_read(sts, prs, tile, header.strict) && sts.len() == tile.tile_parts@.len() + 1 && sts[0]
                    == built && sts.last() == parsed && prs[0] == *old(progression) && prs.last() == p_end;
            assert(structure_kept(&sts.last(), &*storage));
            assert forall|c: int| 0 <= c < tile.component_infos@.len() implies blocks::component_built(
                &sts[0],
                #[trigger] sts[0].tile_decompositions@[c],
                tile.component_tiles_spec()[c],
            ) by {
                assert(blocks::component_built(&built, built.tile_decompositions@[0 + c], tile.component_tiles_spec()[c]));
            }
            assert(segment::tile_parts_read(sts, prs, tile, header.strict));
        }
    }
    r
}

/// The bounds of a whole tile: all of its layers, resolution levels and
/// components.
pub open spec fn tile_input<'a>(tile: &'a Tile<'a>) -> IteratorInput<'a> {
    IteratorInput {
        layers: (0u8, tile.num_layers),
        tile,
        resolutions: (0u8, max_resolution_levels(tile.component_infos@)),
        components: (0u8, tile.component_infos@.len() as u8),
    }
}

/// The progression of a tile in its progression order. Fails when the tile
/// has no layer, no resolution level or no component to iterate over, when
/// a component lacks a resolution level that the layer-resolution or
/// resolution-layer progression visits, or when a resolution tile of a
/// position-based progression lacks a precinct size.
pub fn progression_for_tile<'a>(tile: &'a Tile<'a>) -> (r: Result<ProgressionIterator<'a>>)
    requires
        tile.rect.wf(),
        forall|i: int| 0 <= i < tile.component_infos@.len() ==> (#[trigger] tile.component_infos@[i]).usable(),
    ensures
        r matches Ok(p) ==> {
            &&& p.wf()
            &&& p.none_within(0, p.pos())
            &&& p.input() == tile_input(tile)
            &&& match tile.progression_order {
                ProgressionOrder::LayerResolutionComponentPosition => p is LayerResolution,
                ProgressionOrder::ResolutionLayerComponentPosition => p is ResolutionLayer,
                ProgressionOrder::ResolutionPositionComponentLayer => p matches ProgressionIterator::Position(q)
                    && q.order == progression::PositionOrder::ResolutionPositionComponentLayer,
                ProgressionOrder::PositionComponentResolutionLayer => p matches ProgressionIterator::Position(q)
                    && q.order == progression::PositionOrder::PositionComponentResolutionLayer,
                ProgressionOrder::ComponentPositionResolutionLayer => p matches ProgressionIterator::Position(q)
                    && q.order == progression::PositionOrder::ComponentPositionResolutionLayer,
            }
        },
        r matches Err(e) ==> e == DecodeError::Decoding(DecodingError::InvalidProgressionIterator),
        r is Err <==> {
            ||| max_resolution_levels(tile.component_infos@) == 0
            ||| tile.num_layers == 0
            ||| tile.component_infos@.len() as u8 == 0
            ||| match tile.progression_order {
                ProgressionOrder::LayerResolutionComponentPosition => !tile_input(tile).layer_resolution_supported(),
                ProgressionOrder::ResolutionLayerComponentPosition => !tile_input(tile).resolution_layer_supported(),
                _ => exists|c: int, res: int|
                    progression::lacks_precinct_size(tile_input(tile), tile.component_tiles_spec(), c, res),
            }
        },
{
    let failure = Err(DecodeError::Decoding(DecodingError::InvalidProgressionIterator));
    let mut max_resolution: u8 = 0;
    let mut i: usize = 0;
    while i < tile.component_infos.len()
        invariant
            i <= tile.component_infos@.len(),
            max_resolution == max_resolution_levels(tile.component_infos@.subrange(0, i as int)),
        decreases tile.component_infos@.len() - i,
    {
        let l = tile.component_infos[i].coding_style.parameters.num_resolution_levels;
        proof {
            let s = tile.component_infos@.subrange(0, i + 1);
            assert(s.drop_last() =~= tile.component_infos@.subrange(0, i as int));
        }
        if l > max_resolution {
            max_resolution = l;
        }
        i = i + 1;
    }
    proof {
        assert(tile.component_infos@.subrange(0, i as int) =~= tile.component_infos@);
    }
    #[verifier::truncate]
    let num_components = tile.component_infos.len() as u8;
    if max_resolution == 0 || tile.num_layers == 0 || num_components == 0 {
        return failure;
    }
    let input = IteratorInput::new(tile);
    assert(input == tile_input(tile));
    match tile.progression_order {
        ProgressionOrder::LayerResolutionComponentPosition => {
            let levels = tile.component_infos[0].coding_style.parameters.num_resolution_levels;
            let end = if max_resolution <= levels { max_resolution } else { levels };
            if end == 0 || !input.components_reach(0, num_components, end) {
                return failure;
            }
            Ok(ProgressionIterator::LayerResolution(progression::layer_resolution_component_position_progression(input)))
        },
        ProgressionOrder::ResolutionLayerComponentPosition => {
            if !input.components_reach(0, num_components, max_resolution) {
                return failure;
            }
            Ok(ProgressionIterator::ResolutionLayer(progression::resolution_layer_component_position_progression(input)))
        },
        ProgressionOrder::ResolutionPositionComponentLayer => {
            match progression::resolution_position_component_layer_progression(input) {
                Some(p) => Ok(ProgressionIterator::Position(p)),
                None => failure,
            }
        },
        ProgressionOrder::PositionComponentResolutionLayer => {
            match progression::position_component_resolution_layer_progression(input) {
                Some(p) => Ok(ProgressionIterator::Position(p)),
                None => failure,
            }
        },
        ProgressionOrder::ComponentPositionResolutionLayer => {
            match progression::component_position_resolution_layer_progression(input) {
                Some(p) => Ok(ProgressionIterator::Position(p)),
                None => failure,
            }
        },
    }
}

} // verus!
