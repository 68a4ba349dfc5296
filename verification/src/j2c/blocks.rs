//! Building and setting up decompositions, sub-bands, precincts and code-blocks.
use crate::error::{DecodeError, DecodingError, Result, TileError};
use crate::j2c::decode::{DecompositionStorage, TileDecompositions};
use crate::j2c::rect::IntRect;
use crate::j2c::tag_tree::{lemma_node_ok_extends, TagNode, TagTree};
use crate::j2c::tile::{resolution_tile_spec, sub_band_rect_spec, ComponentTile, ResolutionTile, Tile};
use core::ops::Range;
use vstd::arithmetic::power2::pow2;
use vstd::prelude::*;

verus! {

/// The four kinds of sub-bands.
#[derive(Clone, Copy, Debug, PartialEq, Eq, Structural)]
pub enum SubBandType {
    LowLow,
    HighLow,
    LowHigh,
    HighHigh,
}

/// One decomposition level of a component tile.
pub struct Decomposition {
    /// In the order high-low, low-high and high-high.
    pub sub_bands: [usize; 3],
    /// The rectangle of the decomposition.
    pub rect: IntRect,
}

/// A sub-band: its precincts and where its coefficients are stored.
pub struct SubBand {
    pub sub_band_type: SubBandType,
    pub rect: IntRect,
    pub precincts: Range<usize>,
    pub coefficients: Range<usize>,
}

/// A precinct: its code-blocks and its two tag trees.
pub struct Precinct {
    pub code_blocks: Range<usize>,
    pub code_inclusion_tree: TagTree,
    pub zero_bitplane_tree: TagTree,
}

/// A code-block and the state that reading its packet headers builds up.
pub struct CodeBlock {
    pub rect: IntRect,
    pub x_idx: u32,
    pub y_idx: u32,
    pub layers: Range<usize>,
    pub has_been_included: bool,
    pub missing_bit_planes: u8,
    pub number_of_coding_passes: u8,
    pub l_block: u32,
    pub non_empty_layer_count: u8,
}

/// A codeword segment of a code-block.
pub struct Segment<'a> {
    pub idx: u8,
    pub coding_pases: u8,
    pub data_length: u32,
    pub data: &'a [u8],
}

/// The segments that a layer contributes to a code-block.
pub struct Layer {
    pub segments: Option<Range<usize>>,
}

/// The nodes only grew: the trees stay well-formed.
proof fn lemma_trees_extend(s0: &DecompositionStorage, s1: &DecompositionStorage)
    requires
        s0.trees_ok(),
        crate::j2c::tag_tree::extends(s0.tag_tree_nodes@, s1.tag_tree_nodes@),
        s1.precincts@.len() >= s0.precincts@.len(),
        forall|p: int| 0 <= p < s0.precincts@.len() ==> #[trigger] s1.precincts@[p] == s0.precincts@[p],
        s1.code_blocks@.len() >= s0.code_blocks@.len(),
        forall|k: int| 0 <= k < s0.code_blocks@.len() ==> #[trigger] s1.code_blocks@[k] == s0.code_blocks@[k],
    ensures
        forall|p: int|
            0 <= p < s0.precincts@.len() ==> {
                let pr = #[trigger] s1.precincts@[p];
                &&& pr.code_inclusion_tree.wf(s1.tag_tree_nodes@)
                &&& pr.zero_bitplane_tree.wf(s1.tag_tree_nodes@)
                &&& pr.code_blocks.start <= pr.code_blocks.end <= s1.code_blocks@.len()
                &&& forall|k: int|
                    pr.code_blocks.start <= k < pr.code_blocks.end ==> {
                        &&& (#[trigger] s1.code_blocks@[k]).x_idx < pr.code_inclusion_tree.width
                        &&& s1.code_blocks@[k].y_idx < pr.code_inclusion_tree.height
                        &&& s1.code_blocks@[k].x_idx < pr.zero_bitplane_tree.width
                        &&& s1.code_blocks@[k].y_idx < pr.zero_bitplane_tree.height
                    }
            },
{
    assert forall|p: int| 0 <= p < s0.precincts@.len() implies {
        let pr = #[trigger] s1.precincts@[p];
        &&& pr.code_inclusion_tree.wf(s1.tag_tree_nodes@)
        &&& pr.zero_bitplane_tree.wf(s1.tag_tree_nodes@)
        &&& pr.code_blocks.start <= pr.code_blocks.end <= s1.code_blocks@.len()
        &&& forall|k: int|
            pr.code_blocks.start <= k < pr.code_blocks.end ==> {
                &&& (#[trigger] s1.code_blocks@[k]).x_idx < pr.code_inclusion_tree.width
                &&& s1.code_blocks@[k].y_idx < pr.code_inclusion_tree.height
                &&& s1.code_blocks@[k].x_idx < pr.zero_bitplane_tree.width
                &&& s1.code_blocks@[k].y_idx < pr.zero_bitplane_tree.height
            }
    } by {
        let pr = s0.precincts@[p];
        assert(s1.precincts@[p] == pr);
        let r1 = pr.code_inclusion_tree.root as int;
        let r2 = pr.zero_bitplane_tree.root as int;
        assert(s0.tag_tree_nodes@[r1] == s1.tag_tree_nodes@[r1]);
        assert(s0.tag_tree_nodes@[r2] == s1.tag_tree_nodes@[r2]);
        lemma_node_ok_extends(s0.tag_tree_nodes@, s1.tag_tree_nodes@, s0.tag_tree_nodes@[r1]);
        lemma_node_ok_extends(s0.tag_tree_nodes@, s1.tag_tree_nodes@, s0.tag_tree_nodes@[r2]);
        assert forall|k: int| pr.code_blocks.start <= k < pr.code_blocks.end implies {
            &&& (#[trigger] s1.code_blocks@[k]).x_idx < pr.code_inclusion_tree.width
            &&& s1.code_blocks@[k].y_idx < pr.code_inclusion_tree.height
            &&& s1.code_blocks@[k].x_idx < pr.zero_bitplane_tree.width
            &&& s1.code_blocks@[k].y_idx < pr.zero_bitplane_tree.height
        } by {
            assert(s1.code_blocks@[k] == s0.code_blocks@[k]);
        }
    }
}

/// Add `n` layers without segments.
fn push_empty_layers(layers: &mut Vec<Layer>, n: u8)
    ensures
        final(layers)@.len() == old(layers)@.len() + n,
{
    let mut l: u8 = 0;
    while l < n
        invariant
            l <= n,
            layers@.len() == old(layers)@.len() + l,
        decreases n - l,
    {
        // This will be updated once we actually read the layer
        // segments.
        layers.push(Layer { segments: None });
        l = l + 1;
    }
}

/// The code-blocks of a precinct: `code_blocks_x` by `code_blocks_y`
/// blocks of the code-block size from the top-left corner of
/// `code_block_area`, each cut to the sub-band, with `num_layers` empty
/// layers each.
fn build_code_blocks(
    code_block_area: IntRect,
    sub_band_rect: IntRect,
    code_block_width: u32,
    code_block_height: u32,
    code_blocks_x: u32,
    code_blocks_y: u32,
    num_layers: u8,
    storage: &mut DecompositionStorage<'_>,
) -> (r: Range<usize>)
    requires
        old(storage).blocks_ok(),
        sub_band_rect.wf(),
        1 <= code_block_width <= crate::j2c::bitplane::MAX_CODE_BLOCK_SIZE,
        1 <= code_block_height <= crate::j2c::bitplane::MAX_CODE_BLOCK_SIZE,
        code_block_area.x0 + code_blocks_x * code_block_width <= u32::MAX,
        code_block_area.y0 + code_blocks_y * code_block_height <= u32::MAX,
    ensures
        final(storage).blocks_ok(),
        r.start == old(storage).code_blocks@.len(),
        r.end == final(storage).code_blocks@.len(),
        r.end - r.start == code_blocks_x * code_blocks_y,
        forall|k: int| 0 <= k < old(storage).code_blocks@.len() ==> #[trigger] final(storage).code_blocks@[k] == old(storage).code_blocks@[k],
        forall|k: int| r.start <= k < r.end ==> (#[trigger] final(storage).code_blocks@[k]).x_idx < code_blocks_x
            && final(storage).code_blocks@[k].y_idx < code_blocks_y,
        final(storage).precincts == old(storage).precincts,
        final(storage).tag_tree_nodes == old(storage).tag_tree_nodes,
        final(storage).sub_bands == old(storage).sub_bands,
        final(storage).decompositions == old(storage).decompositions,
        final(storage).tile_decompositions == old(storage).tile_decompositions,
        final(storage).coefficients == old(storage).coefficients,
        final(storage).segments@.len() == old(storage).segments@.len(),
{
    let start = storage.code_blocks.len();
    let mut y = code_block_area.y0;
    let mut y_idx: u32 = 0;
    while y_idx < code_blocks_y
        invariant
            storage.blocks_ok(),
            start == old(storage).code_blocks@.len(),
            storage.code_blocks@.len() == start + y_idx * code_blocks_x,
            forall|k: int| 0 <= k < old(storage).code_blocks@.len() ==> #[trigger] storage.code_blocks@[k] == old(storage).code_blocks@[k],
            forall|k: int| start <= k < storage.code_blocks@.len() ==> (#[trigger] storage.code_blocks@[k]).x_idx < code_blocks_x
                && storage.code_blocks@[k].y_idx < code_blocks_y,
            y_idx < code_blocks_y ==> y == code_block_area.y0 + y_idx * code_block_height,
            y_idx <= code_blocks_y,
            code_block_area.y0 + code_blocks_y * code_block_height <= u32::MAX,
            code_block_area.x0 + code_blocks_x * code_block_width <= u32::MAX,
            1 <= code_block_width <= crate::j2c::bitplane::MAX_CODE_BLOCK_SIZE,
            1 <= code_block_height <= crate::j2c::bitplane::MAX_CODE_BLOCK_SIZE,
            sub_band_rect.wf(),
            storage.precincts == old(storage).precincts,
            storage.tag_tree_nodes == old(storage).tag_tree_nodes,
            storage.sub_bands == old(storage).sub_bands,
            storage.decompositions == old(storage).decompositions,
            storage.tile_decompositions == old(storage).tile_decompositions,
            storage.coefficients == old(storage).coefficients,
            storage.segments@.len() == old(storage).segments@.len(),
        decreases code_blocks_y - y_idx,
    {
        let mut x = code_block_area.x0;
        let mut x_idx: u32 = 0;
        proof {
            assert((y_idx + 1) * code_block_height <= code_blocks_y * code_block_height) by (nonlinear_arith)
                requires y_idx < code_blocks_y, code_block_height >= 1;
            assert(y_idx * code_block_height + code_block_height == (y_idx + 1) * code_block_height) by (nonlinear_arith);
        }
        while x_idx < code_blocks_x
            invariant
                storage.blocks_ok(),
                start == old(storage).code_blocks@.len(),
                storage.code_blocks@.len() == start + y_idx * code_blocks_x + x_idx,
                forall|k: int| 0 <= k < old(storage).code_blocks@.len() ==> #[trigger] storage.code_blocks@[k] == old(storage).code_blocks@[k],
                forall|k: int| start <= k < storage.code_blocks@.len() ==> (#[trigger] storage.code_blocks@[k]).x_idx < code_blocks_x
                    && storage.code_blocks@[k].y_idx < code_blocks_y,
                x_idx < code_blocks_x ==> x == code_block_area.x0 + x_idx * code_block_width,
                y == code_block_area.y0 + y_idx * code_block_height,
                y + code_block_height <= u32::MAX,
                sub_band_rect.wf(),
                x_idx <= code_blocks_x,
                y_idx < code_blocks_y,
                code_block_area.x0 + code_blocks_x * code_block_width <= u32::MAX,
                1 <= code_block_width <= crate::j2c::bitplane::MAX_CODE_BLOCK_SIZE,
                1 <= code_block_height <= crate::j2c::bitplane::MAX_CODE_BLOCK_SIZE,
                storage.precincts == old(storage).precincts,
                storage.tag_tree_nodes == old(storage).tag_tree_nodes,
                storage.sub_bands == old(storage).sub_bands,
                storage.decompositions == old(storage).decompositions,
                storage.tile_decompositions == old(storage).tile_decompositions,
                storage.coefficients == old(storage).coefficients,
                storage.segments@.len() == old(storage).segments@.len(),
            decreases code_blocks_x - x_idx,
        {
            proof {
                assert((x_idx + 1) * code_block_width <= code_blocks_x * code_block_width) by (nonlinear_arith)
                    requires x_idx < code_blocks_x, code_block_width >= 1;
                assert(x_idx * code_block_width + code_block_width == (x_idx + 1) * code_block_width) by (nonlinear_arith);
            }
            // "Code-blocks in the partition may extend beyond the boundaries of
            // the sub-band coefficients. When this happens, only the
            // coefficients lying within the sub-band are coded using the method
            // described in Annex D."
            let cell = IntRect::from_xywh(x, y, code_block_width, code_block_height);
            let area = cell.intersect(sub_band_rect);

            let layers_start = storage.layers.len();
            push_empty_layers(&mut storage.layers, num_layers);
            let layers_end = storage.layers.len();

            storage.code_blocks.push(CodeBlock {
                x_idx,
                y_idx,
                rect: area,
                has_been_included: false,
                missing_bit_planes: 0,
                l_block: 3,
                number_of_coding_passes: 0,
                layers: Range { start: layers_start, end: layers_end },
                non_empty_layer_count: 0,
            });
            proof {
                crate::j2c::rect::lemma_intersect(cell, sub_band_rect);
                assert(storage.code_blocks@.len() == start + y_idx * code_blocks_x + x_idx + 1);
            }
            if x_idx + 1 < code_blocks_x {
                x = x + code_block_width;
            }
            x_idx = x_idx + 1;
            proof {
                if x_idx < code_blocks_x {
                    assert(x == code_block_area.x0 + x_idx * code_block_width);
                }
            }
        }
        proof {
            assert(start + y_idx * code_blocks_x + code_blocks_x == start + (y_idx + 1) * code_blocks_x) by (nonlinear_arith);
        }
        if y_idx + 1 < code_blocks_y {
            y = y + code_block_height;
        }
        y_idx = y_idx + 1;
    }
    let end = storage.code_blocks.len();
    proof {
        assert(y_idx * code_blocks_x == code_blocks_x * code_blocks_y) by (nonlinear_arith)
            requires y_idx == code_blocks_y;
    }
    Range { start, end }
}

/// The code-block grid of a precinct, cut to the sub-band (Figure B.9):
/// the first and last columns or rows of code-blocks aligned to the
/// code-block size, or `None` when the aligned end does not fit in a `u32`.
fn aligned_span(p0: u32, p1: u32, s0: u32, s1: u32, size: u32) -> (r: Option<(u32, u32)>)
    requires
        size >= 1,
    ensures
        r matches Some((a, b)) ==> a <= (if p0 >= s0 { p0 } else { s0 }) && a % size == 0 && b % size == 0,
        grid_end(p1 as int, s1 as int, size as int) > u32::MAX ==> r is None,
        grid_end(p1 as int, s1 as int, size as int) <= u32::MAX ==> (r matches Some((a, b)) && a == grid_start(
            p0 as int,
            s0 as int,
            size as int,
        ) && b == grid_end(p1 as int, s1 as int, size as int)),
{
    let lo = if p0 >= s0 { p0 } else { s0 };
    let hi = if p1 <= s1 { p1 } else { s1 };
    assert((lo / size) * size <= lo) by (nonlinear_arith)
        requires size >= 1, lo >= 0;
    let a = (lo / size) * size;
    assert(a % size == 0) by (nonlinear_arith)
        requires a == (lo / size) * size, size >= 1, lo >= 0;
    let q = (hi as u64 + size as u64 - 1) / size as u64;
    assert(q * size <= hi + size - 1) by (nonlinear_arith)
        requires q == (hi + size - 1) / (size as int), size >= 1, hi >= 0;
    let b = q * size as u64;
    if b > u32::MAX as u64 {
        return None;
    }
    assert(b % (size as u64) == 0) by (nonlinear_arith)
        requires b == q * size, q == (hi + size - 1) / (size as int), size >= 1;
    Some((a, b as u32))
}

/// The sub-band `sb` is the sub-band of type `t` of the resolution tile
/// `rt` (B-15), with room for one coefficient per sample and one precinct
/// for each precinct of the tile.
pub open spec fn sub_band_of(sb: SubBand, rt: ResolutionTile, t: SubBandType) -> bool {
    &&& sb.sub_band_type == t
    &&& sb.rect == sub_band_rect_spec(rt.component_tile.rect, rt.decomposition_level as int, t)
    &&& sb.coefficients.start <= sb.coefficients.end
    &&& sb.coefficients.end - sb.coefficients.start == sb.rect.spec_width() * sb.rect.spec_height()
    &&& sb.precincts.start <= sb.precincts.end
    &&& sb.precincts.end - sb.precincts.start == rt.spec_num_precincts()
}

/// The decomposition `d` is that of the resolution tile `rt` above
/// resolution zero: it has its rectangle, and its three sub-bands are the
/// HL, LH and HH sub-bands of the tile.
pub open spec fn decomposition_of(s: &DecompositionStorage, d: Decomposition, rt: ResolutionTile) -> bool {
    &&& d.rect == rt.rect
    &&& d.sub_bands[0] < s.sub_bands@.len()
    &&& sub_band_of(s.sub_bands@[d.sub_bands[0] as int], rt, SubBandType::HighLow)
    &&& d.sub_bands[1] < s.sub_bands@.len()
    &&& sub_band_of(s.sub_bands@[d.sub_bands[1] as int], rt, SubBandType::LowHigh)
    &&& d.sub_bands[2] < s.sub_bands@.len()
    &&& sub_band_of(s.sub_bands@[d.sub_bands[2] as int], rt, SubBandType::HighHigh)
}

/// The decompositions of the component tile `ct`, as `td` locates them in
/// the storage: the LL sub-band of resolution zero, and one decomposition
/// for each further resolution.
pub open spec fn component_built(s: &DecompositionStorage, td: TileDecompositions, ct: ComponentTile) -> bool {
    let levels = ct.component_info.spec_num_resolution_levels() as int;
    &&& td.first_ll_sub_band < s.sub_bands@.len()
    &&& sub_band_of(s.sub_bands@[td.first_ll_sub_band as int], resolution_tile_spec(ct, 0), SubBandType::LowLow)
    &&& td.decompositions.start <= td.decompositions.end <= s.decompositions@.len()
    &&& td.decompositions.end - td.decompositions.start == levels - 1
    &&& forall|r: int|
        1 <= r < levels ==> decomposition_of(
            s,
            #[trigger] s.decompositions@[td.decompositions.start + r - 1],
            resolution_tile_spec(ct, r),
        )
}

/// `b` holds the sub-bands and decompositions of `a`, and possibly more.
pub open spec fn extends_structure(a: &DecompositionStorage, b: &DecompositionStorage) -> bool {
    &&& a.sub_bands@.len() <= b.sub_bands@.len()
    &&& forall|j: int| 0 <= j < a.sub_bands@.len() ==> #[trigger] b.sub_bands@[j] == a.sub_bands@[j]
    &&& a.decompositions@.len() <= b.decompositions@.len()
    &&& forall|j: int| 0 <= j < a.decompositions@.len() ==> #[trigger] b.decompositions@[j] == a.decompositions@[j]
}

/// What was built stays built when the storage grows.
proof fn lemma_built_extends(a: &DecompositionStorage, b: &DecompositionStorage, td: TileDecompositions, ct: ComponentTile)
    requires
        extends_structure(a, b),
        component_built(a, td, ct),
    ensures
        component_built(b, td, ct),
{
    let levels = ct.component_info.spec_num_resolution_levels() as int;
    assert(b.sub_bands@[td.first_ll_sub_band as int] == a.sub_bands@[td.first_ll_sub_band as int]);
    assert forall|r: int| 1 <= r < levels implies decomposition_of(
        b,
        #[trigger] b.decompositions@[td.decompositions.start + r - 1],
        resolution_tile_spec(ct, r),
    ) by {
        let d = a.decompositions@[td.decompositions.start + r - 1];
        assert(decomposition_of(a, d, resolution_tile_spec(ct, r)));
        assert(b.decompositions@[td.decompositions.start + r - 1] == d);
        assert(b.sub_bands@[d.sub_bands[0] as int] == a.sub_bands@[d.sub_bands[0] as int]);
        assert(b.sub_bands@[d.sub_bands[1] as int] == a.sub_bands@[d.sub_bands[1] as int]);
        assert(b.sub_bands@[d.sub_bands[2] as int] == a.sub_bands@[d.sub_bands[2] as int]);
    }
}

/// The first column (or row) of the code-block grid of a precinct
/// spanning `p0..p1` in a sub-band spanning `s0..s1`, aligned down to the
/// code-block size (Figure B.9).
pub open spec fn grid_start(p0: int, s0: int, size: int) -> int {
    ((if p0 >= s0 { p0 } else { s0 }) / size) * size
}

/// The end of that grid, aligned up to the code-block size.
pub open spec fn grid_end(p1: int, s1: int, size: int) -> int {
    (((if p1 <= s1 { p1 } else { s1 }) + size - 1) / size) * size
}

/// The number of code-blocks of that grid: none for an empty sub-band or
/// a precinct that does not reach into it.
pub open spec fn grid_count(p0: int, p1: int, s0: int, s1: int, size: int) -> int {
    if s1 - s0 == 0 || grid_end(p1, s1, size) < grid_start(p0, s0, size) {
        0
    } else {
        (grid_end(p1, s1, size) - grid_start(p0, s0, size)) / size
    }
}

/// The code-block grid of a precinct fits: its ends fit in a `u32`, and it
/// has at most 2^31 code-blocks in each direction.
pub open spec fn precinct_grid_ok(pr: IntRect, sb: IntRect, w: int, h: int) -> bool {
    &&& grid_end(pr.x1 as int, sb.x1 as int, w) <= u32::MAX
    &&& grid_end(pr.y1 as int, sb.y1 as int, h) <= u32::MAX
    &&& grid_count(pr.x0 as int, pr.x1 as int, sb.x0 as int, sb.x1 as int, w) <= 0x8000_0000
    &&& grid_count(pr.y0 as int, pr.y1 as int, sb.y0 as int, sb.y1 as int, h) <= 0x8000_0000
}

/// The precincts of a resolution tile can be built in a sub-band: they
/// have precinct sizes, and each has a code-block grid that fits.
pub open spec fn precincts_ok(rt: ResolutionTile, sb: IntRect) -> bool {
    &&& !(rt.resolution > 0 && (rt.spec_ppx() == 0 || rt.spec_ppy() == 0))
    &&& forall|k: int|
        0 <= k < rt.spec_num_precincts() ==> precinct_grid_ok(
            #[trigger] rt.spec_precinct(k).rect,
            sb,
            pow2(rt.spec_xcb() as nat) as int,
            pow2(rt.spec_ycb() as nat) as int,
        )
}

/// Build the precincts of a sub-band, with their code-blocks and tag
/// trees.
fn build_precincts(
    resolution_tile: &ResolutionTile<'_>,
    sub_band_rect: IntRect,
    num_layers: u8,
    storage: &mut DecompositionStorage<'_>,
) -> (r: Result<Range<usize>>)
    requires
        resolution_tile.wf(),
        sub_band_rect.wf(),
        old(storage).trees_ok(),
        old(storage).blocks_ok(),
    ensures
        final(storage).trees_ok(),
        final(storage).blocks_ok(),
        final(storage).sub_bands == old(storage).sub_bands,
        final(storage).decompositions == old(storage).decompositions,
        final(storage).tile_decompositions == old(storage).tile_decompositions,
        final(storage).coefficients == old(storage).coefficients,
        r matches Ok(range) ==> range.start == old(storage).precincts@.len() && range.end == final(storage).precincts@.len()
            && range.start <= range.end && range.end - range.start == resolution_tile.spec_num_precincts(),
        r is Ok <==> precincts_ok(*resolution_tile, sub_band_rect),
        r is Err ==> r == Err::<Range<usize>, DecodeError>(DecodeError::Decoding(DecodingError::InvalidPrecinct)),
{
    let start = storage.precincts.len();
    let precincts = match resolution_tile.precincts() {
        Some(p) => p,
        None => return Err(DecodeError::Decoding(DecodingError::InvalidPrecinct)),
    };
    let cb_width = resolution_tile.code_block_width();
    let cb_height = resolution_tile.code_block_height();
    proof {
        vstd::arithmetic::power2::lemma2_to64();
        if resolution_tile.spec_xcb() < 15 {
            vstd::arithmetic::power2::lemma_pow2_strictly_increases(resolution_tile.spec_xcb() as nat, 15);
        }
        if resolution_tile.spec_ycb() < 15 {
            vstd::arithmetic::power2::lemma_pow2_strictly_increases(resolution_tile.spec_ycb() as nat, 15);
        }
    }

    let mut i: usize = 0;
    while i < precincts.len()
        invariant
            storage.trees_ok(),
            storage.blocks_ok(),
            sub_band_rect.wf(),
            1 <= cb_width <= crate::j2c::bitplane::MAX_CODE_BLOCK_SIZE,
            1 <= cb_height <= crate::j2c::bitplane::MAX_CODE_BLOCK_SIZE,
            start == old(storage).precincts@.len(),
            storage.precincts@.len() == start + i,
            i <= precincts@.len(),
            precincts@.len() == resolution_tile.spec_num_precincts(),
            forall|k: int| 0 <= k < precincts@.len() ==> (#[trigger] precincts@[k]) == resolution_tile.spec_precinct(k),
            !(resolution_tile.resolution > 0 && (resolution_tile.spec_ppx() == 0 || resolution_tile.spec_ppy() == 0)),
            cb_width == pow2(resolution_tile.spec_xcb() as nat),
            cb_height == pow2(resolution_tile.spec_ycb() as nat),
            forall|k: int|
                0 <= k < i ==> precinct_grid_ok(
                    #[trigger] resolution_tile.spec_precinct(k).rect,
                    sub_band_rect,
                    cb_width as int,
                    cb_height as int,
                ),
            storage.sub_bands == old(storage).sub_bands,
            storage.decompositions == old(storage).decompositions,
            storage.tile_decompositions == old(storage).tile_decompositions,
            storage.coefficients == old(storage).coefficients,
        decreases precincts@.len() - i,
    {
        let precinct_rect = precincts[i].rect;

        // See Figure B.9. Conceptually, the area of code-blocks is aligned
        // to the width/height of a code block.
        let (cb_x0, cb_x1) = match aligned_span(precinct_rect.x0, precinct_rect.x1, sub_band_rect.x0, sub_band_rect.x1, cb_width) {
            Some(v) => v,
            None => return Err(DecodeError::Decoding(DecodingError::InvalidPrecinct)),
        };
        let (cb_y0, cb_y1) = match aligned_span(precinct_rect.y0, precinct_rect.y1, sub_band_rect.y0, sub_band_rect.y1, cb_height) {
            Some(v) => v,
            None => return Err(DecodeError::Decoding(DecodingError::InvalidPrecinct)),
        };
        let code_block_area = IntRect::from_ltrb(cb_x0, cb_y0, cb_x1, cb_y1);

        // If the sub-band is empty, there are no code-blocks, but due to our
        // flooring/ceiling above, we would get 1 code-block in each direction.
        // Because of this, we need to special-case this. A precinct that
        // does not reach into the sub-band has no code-blocks either.
        let code_blocks_x = if sub_band_rect.width() == 0 || cb_x1 < cb_x0 {
            0
        } else {
            code_block_area.width() / cb_width
        };
        let code_blocks_y = if sub_band_rect.height() == 0 || cb_y1 < cb_y0 {
            0
        } else {
            code_block_area.height() / cb_height
        };
        proof {
            assert(precincts@[i as int] == resolution_tile.spec_precinct(i as int));
        }
        proof {
            let pr = resolution_tile.spec_precinct(i as int).rect;
            assert(code_blocks_x == grid_count(pr.x0 as int, pr.x1 as int, sub_band_rect.x0 as int, sub_band_rect.x1 as int, cb_width as int));
            assert(code_blocks_y == grid_count(pr.y0 as int, pr.y1 as int, sub_band_rect.y0 as int, sub_band_rect.y1 as int, cb_height as int));
        }
        if code_blocks_x > 0x8000_0000 || code_blocks_y > 0x8000_0000 {
            proof {
                assert(!precinct_grid_ok(resolution_tile.spec_precinct(i as int).rect, sub_band_rect, cb_width as int, cb_height as int));
            }
            return Err(DecodeError::Decoding(DecodingError::InvalidPrecinct));
        }
        proof {
            assert(precinct_grid_ok(resolution_tile.spec_precinct(i as int).rect, sub_band_rect, cb_width as int, cb_height as int));
        }
        proof {
            if code_blocks_x > 0 {
                assert(cb_x0 + code_blocks_x * cb_width <= cb_x1) by (nonlinear_arith)
                    requires code_blocks_x == (cb_x1 - cb_x0) / (cb_width as int), cb_width >= 1, cb_x0 <= cb_x1;
            }
            if code_blocks_y > 0 {
                assert(cb_y0 + code_blocks_y * cb_height <= cb_y1) by (nonlinear_arith)
                    requires code_blocks_y == (cb_y1 - cb_y0) / (cb_height as int), cb_height >= 1, cb_y0 <= cb_y1;
            }
        }

        let ghost s0 = *storage;
        let blocks = build_code_blocks(
            code_block_area,
            sub_band_rect,
            cb_width,
            cb_height,
            code_blocks_x,
            code_blocks_y,
            num_layers,
            storage,
        );
        let ghost s1 = *storage;
        let code_inclusion_tree = TagTree::new(code_blocks_x, code_blocks_y, &mut storage.tag_tree_nodes);
        let ghost s2 = *storage;
        let zero_bitplane_tree = TagTree::new(code_blocks_x, code_blocks_y, &mut storage.tag_tree_nodes);
        proof {
            lemma_trees_extend(&s0, &*storage);
            lemma_node_ok_extends(
                s2.tag_tree_nodes@,
                storage.tag_tree_nodes@,
                s2.tag_tree_nodes@[code_inclusion_tree.root as int],
            );
            assert(s2.tag_tree_nodes@[code_inclusion_tree.root as int] == storage.tag_tree_nodes@[code_inclusion_tree.root as int]);
        }
        let ghost s3 = *storage;
        storage.precincts.push(Precinct { code_blocks: blocks, code_inclusion_tree, zero_bitplane_tree });
        proof {
            assert forall|p: int| 0 <= p < storage.precincts@.len() implies {
                let pr = #[trigger] storage.precincts@[p];
                &&& pr.code_inclusion_tree.wf(storage.tag_tree_nodes@)
                &&& pr.zero_bitplane_tree.wf(storage.tag_tree_nodes@)
                &&& pr.code_blocks.start <= pr.code_blocks.end <= storage.code_blocks@.len()
                &&& forall|k: int|
                    pr.code_blocks.start <= k < pr.code_blocks.end ==> {
                        &&& (#[trigger] storage.code_blocks@[k]).x_idx < pr.code_inclusion_tree.width
                        &&& storage.code_blocks@[k].y_idx < pr.code_inclusion_tree.height
                        &&& storage.code_blocks@[k].x_idx < pr.zero_bitplane_tree.width
                        &&& storage.code_blocks@[k].y_idx < pr.zero_bitplane_tree.height
                    }
            } by {
                if p < s3.precincts@.len() {
                    assert(storage.precincts@[p] == s3.precincts@[p]);
                    assert(s3.precincts@[p] == s0.precincts@[p]);
                }
            }
        }
        i = i + 1;
    }

    let end = storage.precincts.len();
    Ok(Range { start, end })
}

/// Build one sub-band of a resolution tile: its precincts, and the range of
/// its coefficients after those counted so far.
fn build_sub_band(
    sub_band_type: SubBandType,
    resolution_tile: &ResolutionTile<'_>,
    num_layers: u8,
    coefficient_counter: &mut usize,
    storage: &mut DecompositionStorage<'_>,
) -> (r: Result<usize>)
    requires
        resolution_tile.wf(),
        resolution_tile.resolution == 0 ==> sub_band_type == SubBandType::LowLow,
        old(storage).trees_ok(),
        old(storage).blocks_ok(),
    ensures
        final(storage).trees_ok(),
        final(storage).blocks_ok(),
        final(storage).decompositions == old(storage).decompositions,
        final(storage).tile_decompositions == old(storage).tile_decompositions,
        final(storage).coefficients == old(storage).coefficients,
        final(storage).sub_bands@.len() >= old(storage).sub_bands@.len(),
        forall|j: int| 0 <= j < old(storage).sub_bands@.len() ==> #[trigger] final(storage).sub_bands@[j] == old(storage).sub_bands@[j],
        r matches Ok(idx) ==> {
            &&& idx == old(storage).sub_bands@.len()
            &&& final(storage).sub_bands@.len() == idx + 1
            &&& sub_band_of(final(storage).sub_bands@[idx as int], *resolution_tile, sub_band_type)
            &&& final(storage).sub_bands@[idx as int].coefficients.start == *old(coefficient_counter)
            &&& final(storage).sub_bands@[idx as int].coefficients.end == *final(coefficient_counter)
        },
        *final(coefficient_counter) >= *old(coefficient_counter),
        ({
            let rect = sub_band_rect_spec(
                resolution_tile.component_tile.rect,
                resolution_tile.decomposition_level as int,
                sub_band_type,
            );
            &&& rect.wf()
            &&& !precincts_ok(*resolution_tile, rect) ==> r == Err::<usize, DecodeError>(
                DecodeError::Decoding(DecodingError::InvalidPrecinct),
            )
            &&& precincts_ok(*resolution_tile, rect) ==> (r is Ok <==> *old(coefficient_counter) + rect.spec_width()
                * rect.spec_height() <= usize::MAX)
            &&& r is Err && precincts_ok(*resolution_tile, rect) ==> r == Err::<usize, DecodeError>(
                DecodeError::Tile(TileError::Invalid),
            )
        }),
{
    let sub_band_rect = resolution_tile.sub_band_rect(sub_band_type);
    let precincts = match build_precincts(resolution_tile, sub_band_rect, num_layers, storage) {
        Ok(p) => p,
        Err(e) => return Err(e),
    };
    let w = sub_band_rect.width() as u64;
    let h = sub_band_rect.height() as u64;
    assert(w * h <= 0xffff_ffff * 0xffff_ffff) by (nonlinear_arith)
        requires w <= 0xffff_ffff, h <= 0xffff_ffff;
    let added = w * h;
    if added > usize::MAX as u64 {
        return Err(DecodeError::Tile(TileError::Invalid));
    }
    let end = match coefficient_counter.checked_add(added as usize) {
        Some(e) => e,
        None => return Err(DecodeError::Tile(TileError::Invalid)),
    };
    let coefficients = Range { start: *coefficient_counter, end };
    *coefficient_counter = end;

    let idx = storage.sub_bands.len();
    storage.sub_bands.push(SubBand { sub_band_type, rect: sub_band_rect, precincts, coefficients });
    Ok(idx)
}

/// The rectangle of the sub-band of type `t` of a resolution tile.
pub open spec fn sb_rect(rt: ResolutionTile, t: SubBandType) -> IntRect {
    sub_band_rect_spec(rt.component_tile.rect, rt.decomposition_level as int, t)
}

/// The number of coefficients of that sub-band: the area of its rectangle.
pub open spec fn sb_area(rt: ResolutionTile, t: SubBandType) -> int {
    let rect = sb_rect(rt, t);
    if rect.wf() {
        rect.spec_width() * rect.spec_height()
    } else {
        0
    }
}

/// The number of coefficients of the sub-bands of resolution `r` of a
/// component tile: its LL sub-band at resolution zero, else its HL, LH
/// and HH sub-bands.
pub open spec fn res_area(ct: ComponentTile, r: int) -> int {
    let rt = resolution_tile_spec(ct, r);
    if r == 0 {
        sb_area(rt, SubBandType::LowLow)
    } else {
        sb_area(rt, SubBandType::HighLow) + sb_area(rt, SubBandType::LowHigh) + sb_area(rt, SubBandType::HighHigh)
    }
}

/// The number of coefficients of the sub-bands of the resolutions below
/// `n` of a component tile.
pub open spec fn comp_sb_area(ct: ComponentTile, n: int) -> int
    decreases n,
{
    if n <= 0 {
        0
    } else {
        comp_sb_area(ct, n - 1) + res_area(ct, n - 1)
    }
}

/// The number of coefficients of all sub-bands of the first `n` component
/// tiles.
pub open spec fn all_sb_area(cts: Seq<ComponentTile>, n: int) -> int
    decreases n,
{
    if n <= 0 {
        0
    } else {
        all_sb_area(cts, n - 1) + comp_sb_area(cts[n - 1], cts[n - 1].component_info.spec_num_resolution_levels() as int)
    }
}

/// The number of samples of the first `n` component tiles.
pub open spec fn tiles_area(cts: Seq<ComponentTile>, n: int) -> int
    decreases n,
{
    if n <= 0 {
        0
    } else {
        tiles_area(cts, n - 1) + cts[n - 1].rect.spec_width() * cts[n - 1].rect.spec_height()
    }
}

/// The precincts of the sub-bands of resolution `r` of a component tile
/// can be built.
pub open spec fn res_precincts_ok(ct: ComponentTile, r: int) -> bool {
    let rt = resolution_tile_spec(ct, r);
    if r == 0 {
        precincts_ok(rt, sb_rect(rt, SubBandType::LowLow))
    } else {
        &&& precincts_ok(rt, sb_rect(rt, SubBandType::HighLow))
        &&& precincts_ok(rt, sb_rect(rt, SubBandType::LowHigh))
        &&& precincts_ok(rt, sb_rect(rt, SubBandType::HighHigh))
    }
}

/// The precincts of all resolutions of all component tiles can be built.
pub open spec fn all_precincts_ok(cts: Seq<ComponentTile>) -> bool {
    forall|c: int, r: int|
        0 <= c < cts.len() && 0 <= r < cts[c].component_info.spec_num_resolution_levels() ==> #[trigger] res_precincts_ok(
            cts[c],
            r,
        )
}

/// The structures of a tile with these component tiles can be built: the
/// samples of all component tiles can be counted in a `usize`, all
/// precincts can be built, and the sub-bands hold one coefficient per
/// sample.
pub open spec fn tile_builds(cts: Seq<ComponentTile>) -> bool {
    &&& tiles_area(cts, cts.len() as int) <= usize::MAX
    &&& all_precincts_ok(cts)
    &&& all_sb_area(cts, cts.len() as int) == tiles_area(cts, cts.len() as int)
}

proof fn lemma_sb_area_nonneg(rt: ResolutionTile, t: SubBandType)
    ensures
        sb_area(rt, t) >= 0,
{
    let rect = sb_rect(rt, t);
    if rect.wf() {
        let w = rect.spec_width();
        let h = rect.spec_height();
        assert(w * h >= 0) by (nonlinear_arith)
            requires w >= 0, h >= 0;
    }
}

proof fn lemma_res_area_nonneg(ct: ComponentTile, r: int)
    ensures
        res_area(ct, r) >= 0,
{
    let rt = resolution_tile_spec(ct, r);
    lemma_sb_area_nonneg(rt, SubBandType::LowLow);
    lemma_sb_area_nonneg(rt, SubBandType::HighLow);
    lemma_sb_area_nonneg(rt, SubBandType::LowHigh);
    lemma_sb_area_nonneg(rt, SubBandType::HighHigh);
}

proof fn lemma_comp_sb_area_mono(ct: ComponentTile, a: int, b: int)
    requires
        0 <= a <= b,
    ensures
        0 <= comp_sb_area(ct, a) <= comp_sb_area(ct, b),
    decreases b,
{
    if b > a {
        lemma_comp_sb_area_mono(ct, a, b - 1);
        lemma_res_area_nonneg(ct, b - 1);
    } else if a > 0 {
        lemma_comp_sb_area_mono(ct, a - 1, a - 1);
        lemma_res_area_nonneg(ct, a - 1);
    }
}

proof fn lemma_all_sb_area_mono(cts: Seq<ComponentTile>, a: int, b: int)
    requires
        0 <= a <= b,
    ensures
        0 <= all_sb_area(cts, a) <= all_sb_area(cts, b),
    decreases b,
{
    if b > a {
        lemma_all_sb_area_mono(cts, a, b - 1);
        lemma_comp_sb_area_mono(cts[b - 1], 0, cts[b - 1].component_info.spec_num_resolution_levels() as int);
    } else if a > 0 {
        lemma_all_sb_area_mono(cts, a - 1, a - 1);
        lemma_comp_sb_area_mono(cts[a - 1], 0, cts[a - 1].component_info.spec_num_resolution_levels() as int);
    }
}

/// The coefficients counted up to resolution `r` of component tile `c`
/// are at most those of all sub-bands of the first `n` component tiles.
proof fn lemma_partial_sb_area(cts: Seq<ComponentTile>, c: int, r: int, n: int)
    requires
        0 <= c < n,
        0 <= r <= cts[c].component_info.spec_num_resolution_levels(),
    ensures
        all_sb_area(cts, c) + comp_sb_area(cts[c], r) <= all_sb_area(cts, n),
{
    lemma_comp_sb_area_mono(cts[c], r, cts[c].component_info.spec_num_resolution_levels() as int);
    lemma_all_sb_area_mono(cts, c + 1, n);
}

proof fn lemma_tiles_area_mono(cts: Seq<ComponentTile>, a: int, b: int)
    requires
        0 <= a <= b <= cts.len(),
        forall|i: int| 0 <= i < cts.len() ==> (#[trigger] cts[i]).rect.wf(),
    ensures
        0 <= tiles_area(cts, a) <= tiles_area(cts, b),
    decreases b,
{
    if b > a {
        lemma_tiles_area_mono(cts, a, b - 1);
        let w = cts[b - 1].rect.spec_width();
        let h = cts[b - 1].rect.spec_height();
        assert(w * h >= 0) by (nonlinear_arith)
            requires w >= 0, h >= 0;
    } else if a > 0 {
        lemma_tiles_area_mono(cts, a - 1, a - 1);
        let w = cts[a - 1].rect.spec_width();
        let h = cts[a - 1].rect.spec_height();
        assert(w * h >= 0) by (nonlinear_arith)
            requires w >= 0, h >= 0;
    }
}

/// The sub-bands from index `from` on have ranges of coefficients that
/// follow each other and end at or before `end`.
pub open spec fn coefficients_apart(s: &DecompositionStorage, from: int, end: int) -> bool {
    &&& forall|i: int, j: int|
        from <= i < j < s.sub_bands@.len() ==> (#[trigger] s.sub_bands@[i]).coefficients.end
            <= (#[trigger] s.sub_bands@[j]).coefficients.start
    &&& forall|j: int| from <= j < s.sub_bands@.len() ==> (#[trigger] s.sub_bands@[j]).coefficients.end <= end
}

/// The decompositions of each component of a tile, with their sub-bands,
/// precincts and code-blocks, and room for the coefficients of all
/// sub-bands.
#[verifier::rlimit(60)]
#[verifier::spinoff_prover]
fn build_decompositions<'a>(tile: &'a Tile<'a>, storage: &mut DecompositionStorage<'a>) -> (r: Result<()>)
    requires
        tile.rect.wf(),
        forall|i: int| 0 <= i < tile.component_infos@.len() ==> (#[trigger] tile.component_infos@[i]).usable(),
        old(storage).trees_ok(),
        old(storage).blocks_ok(),
    ensures
        final(storage).trees_ok(),
        final(storage).blocks_ok(),
        r is Ok ==> {
            let t0 = old(storage).tile_decompositions@.len();
            &&& final(storage).tile_decompositions@.len() == t0 + tile.component_infos@.len()
            &&& forall|c: int|
                0 <= c < tile.component_infos@.len() ==> component_built(
                    &*final(storage),
                    #[trigger] final(storage).tile_decompositions@[t0 + c],
                    tile.component_tiles_spec()[c],
                )
            &&& coefficients_apart(&*final(storage), old(storage).sub_bands@.len() as int, final(storage).coefficients@.len() as int)
            &&& final(storage).coefficients@.len() == tiles_area(tile.component_tiles_spec(), tile.component_infos@.len() as int)
        },
        r is Ok <==> tile_builds(tile.component_tiles_spec()),
        tiles_area(tile.component_tiles_spec(), tile.component_infos@.len() as int) > usize::MAX ==> r == Err::<(), DecodeError>(
            DecodeError::Tile(TileError::Invalid),
        ),
        r is Err ==> r == Err::<(), DecodeError>(DecodeError::Tile(TileError::Invalid)) || (r == Err::<(), DecodeError>(
            DecodeError::Decoding(DecodingError::InvalidPrecinct),
        ) && !all_precincts_ok(tile.component_tiles_spec())),
{
    let component_tiles = tile.component_tiles();
    let ghost cts = component_tiles@;
    let ghost n_c = cts.len() as int;

    let mut total_coefficients: usize = 0;
    let mut c: usize = 0;
    while c < component_tiles.len()
        invariant
            c <= component_tiles@.len(),
            cts == component_tiles@,
            n_c == cts.len(),
            cts == tile.component_tiles_spec(),
            cts.len() == tile.component_infos@.len(),
            forall|i: int| 0 <= i < cts.len() ==> (#[trigger] cts[i]).wf(),
            total_coefficients == tiles_area(cts, c as int),
            *storage == *old(storage),
            old(storage).trees_ok(),
            old(storage).blocks_ok(),
        decreases component_tiles@.len() - c,
    {
        let rect = component_tiles[c].rect;
        if rect.x1 < rect.x0 || rect.y1 < rect.y0 {
            proof {
                assert(cts[c as int].wf());
            }
            return Err(DecodeError::Tile(TileError::Invalid));
        }
        let w = rect.width() as u64;
        let h = rect.height() as u64;
        assert(w * h <= 0xffff_ffff * 0xffff_ffff) by (nonlinear_arith)
            requires w <= 0xffff_ffff, h <= 0xffff_ffff;
        let n = w * h;
        proof {
            assert(tiles_area(cts, c + 1) == total_coefficients + n);
            lemma_tiles_area_mono(cts, 0, c as int);
            lemma_tiles_area_mono(cts, c + 1, n_c);
        }
        if n > usize::MAX as u64 {
            return Err(DecodeError::Tile(TileError::Invalid));
        }
        total_coefficients = match total_coefficients.checked_add(n as usize) {
            Some(t) => t,
            None => return Err(DecodeError::Tile(TileError::Invalid)),
        };
        c = c + 1;
    }
    proof {
        lemma_tiles_area_mono(cts, 0, n_c);
    }

    storage.coefficients.resize(total_coefficients, 0);
    let mut coefficient_counter: usize = 0;
    let ghost t0 = storage.tile_decompositions@.len();
    let ghost sb0 = storage.sub_bands@.len();
    let ghost s_start = *storage;

    let mut component_idx: usize = 0;
    while component_idx < component_tiles.len()
        invariant
            component_idx <= component_tiles@.len(),
            component_tiles@ == tile.component_tiles_spec(),
            cts == component_tiles@,
            n_c == cts.len(),
            component_tiles@.len() == tile.component_infos@.len(),
            forall|i: int| 0 <= i < component_tiles@.len() ==> (#[trigger] component_tiles@[i]).wf(),
            storage.trees_ok(),
            storage.blocks_ok(),
            storage.tile_decompositions@.len() == t0 + component_idx,
            t0 == old(storage).tile_decompositions@.len(),
            sb0 == old(storage).sub_bands@.len(),
            sb0 <= storage.sub_bands@.len(),
            storage.coefficients@.len() == s_start.coefficients@.len(),
            s_start.coefficients@.len() == total_coefficients,
            total_coefficients == tiles_area(cts, n_c),
            coefficient_counter == all_sb_area(cts, component_idx as int),
            forall|k: int, rr: int|
                0 <= k < component_idx && 0 <= rr < cts[k].component_info.spec_num_resolution_levels()
                    ==> #[trigger] res_precincts_ok(cts[k], rr),
            forall|k: int|
                0 <= k < component_idx ==> component_built(
                    &*storage,
                    #[trigger] storage.tile_decompositions@[t0 + k],
                    component_tiles@[k],
                ),
            coefficients_apart(&*storage, sb0 as int, coefficient_counter as int),
        decreases component_tiles@.len() - component_idx,
    {
        let component_tile = component_tiles[component_idx];
        let d_start = storage.decompositions.len();
        let resolution_tiles = component_tile.resolution_tiles();
        let ghost s_comp = *storage;
        let ghost ci = component_idx as int;
        let ghost levels = component_tile.component_info.spec_num_resolution_levels() as int;
        proof {
            assert(component_tile.component_info.coding_style.parameters.wf());
            assert(resolution_tiles@[0] == resolution_tile_spec(component_tile, 0));
        }

        // Resolution 0 always is the LL sub-band.
        let ghost counter0 = coefficient_counter;
        let first_ll_sub_band = match build_sub_band(
            SubBandType::LowLow,
            &resolution_tiles[0],
            tile.num_layers,
            &mut coefficient_counter,
            storage,
        ) {
            Ok(i) => i,
            Err(e) => {
                proof {
                    let rt = resolution_tile_spec(component_tile, 0);
                    lemma_comp_sb_area_mono(component_tile, 0, 0);
                    if !precincts_ok(rt, sb_rect(rt, SubBandType::LowLow)) {
                        assert(!res_precincts_ok(cts[ci], 0));
                    } else {
                        lemma_sb_overflow(cts, ci, 0, n_c, sb_area(rt, SubBandType::LowLow));
                    }
                }
                return Err(e);
            },
        };
        proof {
            let rt = resolution_tile_spec(component_tile, 0);
            assert(comp_sb_area(component_tile, 1) == comp_sb_area(component_tile, 0) + res_area(component_tile, 0));
            assert(res_area(component_tile, 0) == sb_area(rt, SubBandType::LowLow));
            assert(coefficient_counter == all_sb_area(cts, ci) + comp_sb_area(component_tile, 1));
            assert(res_precincts_ok(cts[ci], 0));
            assert(extends_structure(&s_comp, &*storage));
            assert forall|k: int| 0 <= k < component_idx implies component_built(
                &*storage,
                #[trigger] storage.tile_decompositions@[t0 + k],
                component_tiles@[k],
            ) by {
                lemma_built_extends(&s_comp, &*storage, storage.tile_decompositions@[t0 + k], component_tiles@[k]);
            }
            assert forall|i: int, j: int|
                sb0 <= i < j < storage.sub_bands@.len() implies (#[trigger] storage.sub_bands@[i]).coefficients.end
                    <= (#[trigger] storage.sub_bands@[j]).coefficients.start by {
                if j == first_ll_sub_band {
                    assert(storage.sub_bands@[i] == s_comp.sub_bands@[i]);
                } else {
                    assert(storage.sub_bands@[i] == s_comp.sub_bands@[i]);
                    assert(storage.sub_bands@[j] == s_comp.sub_bands@[j]);
                }
            }
            assert forall|j: int| sb0 <= j < storage.sub_bands@.len() implies (#[trigger] storage.sub_bands@[j]).coefficients.end
                <= coefficient_counter by {
                if j != first_ll_sub_band {
                    assert(storage.sub_bands@[j] == s_comp.sub_bands@[j]);
                }
            }
        }

        let mut r: usize = 1;
        while r < resolution_tiles.len()
            invariant
                1 <= r <= resolution_tiles@.len(),
                resolution_tiles@.len() == component_tile.component_info.spec_num_resolution_levels(),
                levels == resolution_tiles@.len(),
                forall|i: int| 0 <= i < resolution_tiles@.len() ==> (#[trigger] resolution_tiles@[i]).wf()
                    && resolution_tiles@[i].resolution == i && resolution_tiles@[i] == resolution_tile_spec(component_tile, i),
                component_tile == component_tiles@[component_idx as int],
                ci == component_idx,
                component_idx < component_tiles@.len(),
                component_tiles@ == tile.component_tiles_spec(),
                cts == component_tiles@,
                n_c == cts.len(),
                total_coefficients == tiles_area(cts, n_c),
                total_coefficients <= usize::MAX,
                coefficient_counter == all_sb_area(cts, ci) + comp_sb_area(component_tile, r as int),
                forall|k: int, rr: int|
                    0 <= k < component_idx && 0 <= rr < cts[k].component_info.spec_num_resolution_levels()
                        ==> #[trigger] res_precincts_ok(cts[k], rr),
                forall|rr: int| 0 <= rr < r ==> #[trigger] res_precincts_ok(cts[ci], rr),
                storage.trees_ok(),
                storage.blocks_ok(),
                storage.tile_decompositions@.len() == t0 + component_idx,
                t0 == old(storage).tile_decompositions@.len(),
                sb0 == old(storage).sub_bands@.len(),
                sb0 <= storage.sub_bands@.len(),
                storage.coefficients@.len() == s_start.coefficients@.len(),
                d_start + (r - 1) == storage.decompositions@.len(),
                first_ll_sub_band < storage.sub_bands@.len(),
                sub_band_of(storage.sub_bands@[first_ll_sub_band as int], resolution_tile_spec(component_tile, 0), SubBandType::LowLow),
                forall|k: int|
                    1 <= k < r ==> decomposition_of(
                        &*storage,
                        #[trigger] storage.decompositions@[d_start + k - 1],
                        resolution_tile_spec(component_tile, k),
                    ),
                forall|k: int|
                    0 <= k < component_idx ==> component_built(
                        &*storage,
                        #[trigger] storage.tile_decompositions@[t0 + k],
                        component_tiles@[k],
                    ),
                coefficients_apart(&*storage, sb0 as int, coefficient_counter as int),
            decreases resolution_tiles@.len() - r,
        {
            let resolution_tile = &resolution_tiles[r];
            let ghost s_r = *storage;
            let ghost rt = resolution_tile_spec(component_tile, r as int);
            let ghost base = coefficient_counter as int;
            proof {
                lemma_sb_area_nonneg(rt, SubBandType::HighLow);
                lemma_sb_area_nonneg(rt, SubBandType::LowHigh);
                lemma_sb_area_nonneg(rt, SubBandType::HighHigh);
            }
            let hl = match build_sub_band(SubBandType::HighLow, resolution_tile, tile.num_layers, &mut coefficient_counter, storage) {
                Ok(i) => i,
                Err(e) => {
                    proof {
                        if !precincts_ok(rt, sb_rect(rt, SubBandType::HighLow)) {
                            assert(!res_precincts_ok(cts[ci], r as int));
                        } else {
                            lemma_sb_overflow(cts, ci, r as int, n_c, sb_area(rt, SubBandType::HighLow));
                        }
                    }
                    return Err(e);
                },
            };
            let lh = match build_sub_band(SubBandType::LowHigh, resolution_tile, tile.num_layers, &mut coefficient_counter, storage) {
                Ok(i) => i,
                Err(e) => {
                    proof {
                        if !precincts_ok(rt, sb_rect(rt, SubBandType::LowHigh)) {
                            assert(!res_precincts_ok(cts[ci], r as int));
                        } else {
                            lemma_sb_overflow(
                                cts,
                                ci,
                                r as int,
                                n_c,
                                sb_area(rt, SubBandType::HighLow) + sb_area(rt, SubBandType::LowHigh),
                            );
                        }
                    }
                    return Err(e);
                },
            };
            let hh = match build_sub_band(SubBandType::HighHigh, resolution_tile, tile.num_layers, &mut coefficient_counter, storage) {
                Ok(i) => i,
                Err(e) => {
                    proof {
                        if !precincts_ok(rt, sb_rect(rt, SubBandType::HighHigh)) {
                            assert(!res_precincts_ok(cts[ci], r as int));
                        } else {
                            lemma_sb_overflow(cts, ci, r as int, n_c, res_area(component_tile, r as int));
                        }
                    }
                    return Err(e);
                },
            };
            proof {
                assert(coefficient_counter == base + res_area(component_tile, r as int));
                assert(coefficient_counter == all_sb_area(cts, ci) + comp_sb_area(component_tile, r + 1));
                assert(res_precincts_ok(cts[ci], r as int));
            }
            let ghost s_built = *storage;
            storage.decompositions.push(Decomposition { sub_bands: [hl, lh, hh], rect: resolution_tile.rect });
            proof {
                assert(extends_structure(&s_r, &*storage));
                assert forall|k: int| 0 <= k < component_idx implies component_built(
                    &*storage,
                    #[trigger] storage.tile_decompositions@[t0 + k],
                    component_tiles@[k],
                ) by {
                    lemma_built_extends(&s_r, &*storage, storage.tile_decompositions@[t0 + k], component_tiles@[k]);
                }
                assert(storage.sub_bands@[first_ll_sub_band as int] == s_r.sub_bands@[first_ll_sub_band as int]);
                assert forall|k: int| 1 <= k < r + 1 implies decomposition_of(
                    &*storage,
                    #[trigger] storage.decompositions@[d_start + k - 1],
                    resolution_tile_spec(component_tile, k),
                ) by {
                    if k < r {
                        let d = s_r.decompositions@[d_start + k - 1];
                        assert(decomposition_of(&s_r, d, resolution_tile_spec(component_tile, k)));
                        assert(storage.decompositions@[d_start + k - 1] == d);
                        assert(storage.sub_bands@[d.sub_bands[0] as int] == s_r.sub_bands@[d.sub_bands[0] as int]);
                        assert(storage.sub_bands@[d.sub_bands[1] as int] == s_r.sub_bands@[d.sub_bands[1] as int]);
                        assert(storage.sub_bands@[d.sub_bands[2] as int] == s_r.sub_bands@[d.sub_bands[2] as int]);
                    } else {
                        assert(storage.decompositions@[d_start + k - 1] == (Decomposition { sub_bands: [hl, lh, hh], rect: resolution_tile.rect }));
                        assert(storage.sub_bands@[hl as int] == s_built.sub_bands@[hl as int]);
                        assert(storage.sub_bands@[lh as int] == s_built.sub_bands@[lh as int]);
                    }
                }
                assert forall|i: int, j: int|
                    sb0 <= i < j < storage.sub_bands@.len() implies (#[trigger] storage.sub_bands@[i]).coefficients.end
                        <= (#[trigger] storage.sub_bands@[j]).coefficients.start by {
                    if j < s_r.sub_bands@.len() {
                        assert(storage.sub_bands@[i] == s_r.sub_bands@[i]);
                        assert(storage.sub_bands@[j] == s_r.sub_bands@[j]);
                    } else if i < s_r.sub_bands@.len() {
                        assert(storage.sub_bands@[i] == s_r.sub_bands@[i]);
                    }
                }
                assert forall|j: int| sb0 <= j < storage.sub_bands@.len() implies (#[trigger] storage.sub_bands@[j]).coefficients.end
                    <= coefficient_counter by {
                    if j < s_r.sub_bands@.len() {
                        assert(storage.sub_bands@[j] == s_r.sub_bands@[j]);
                    }
                }
            }
            r = r + 1;
        }

        let d_end = storage.decompositions.len();
        let ghost s_done = *storage;
        storage.tile_decompositions.push(TileDecompositions {
            decompositions: Range { start: d_start, end: d_end },
            first_ll_sub_band,
        });
        proof {
            assert(component_built(
                &*storage,
                storage.tile_decompositions@[t0 + component_idx],
                component_tiles@[component_idx as int],
            ));
            assert(coefficient_counter == all_sb_area(cts, ci + 1));
        }
        component_idx = component_idx + 1;
    }

    // The sub-bands of all resolutions together cover the component tiles.
    if coefficient_counter != storage.coefficients.len() {
        return Err(DecodeError::Tile(TileError::Invalid));
    }
    Ok(())
}

/// Coefficients counted up to part of resolution `r` of component tile `c`
/// that overflow a `usize` are more than the samples of the tile, when
/// those fit.
proof fn lemma_sb_overflow(cts: Seq<ComponentTile>, c: int, r: int, n: int, partial: int)
    requires
        0 <= c < n,
        0 <= r < cts[c].component_info.spec_num_resolution_levels(),
        partial <= res_area(cts[c], r),
        all_sb_area(cts, c) + comp_sb_area(cts[c], r) + partial > usize::MAX,
        tiles_area(cts, n) <= usize::MAX,
    ensures
        all_sb_area(cts, n) != tiles_area(cts, n),
{
    lemma_partial_sb_area(cts, c, r + 1, n);
}

/// Build and allocate all necessary structures to process the code-blocks
/// of a tile: for each component its decompositions, sub-bands, precincts
/// and code-blocks, and room for the coefficients of all sub-bands.
pub fn build<'a>(tile: &'a Tile<'a>, storage: &mut DecompositionStorage<'a>) -> (r: Result<()>)
    requires
        tile.rect.wf(),
        forall|i: int| 0 <= i < tile.component_infos@.len() ==> (#[trigger] tile.component_infos@[i]).usable(),
        old(storage).trees_ok(),
        old(storage).blocks_ok(),
    ensures
        final(storage).trees_ok(),
        final(storage).blocks_ok(),
        r is Ok ==> {
            let t0 = old(storage).tile_decompositions@.len();
            &&& final(storage).tile_decompositions@.len() == t0 + tile.component_infos@.len()
            &&& forall|c: int|
                0 <= c < tile.component_infos@.len() ==> component_built(
                    &*final(storage),
                    #[trigger] final(storage).tile_decompositions@[t0 + c],
                    tile.component_tiles_spec()[c],
                )
            &&& coefficients_apart(&*final(storage), old(storage).sub_bands@.len() as int, final(storage).coefficients@.len() as int)
            &&& final(storage).coefficients@.len() == tiles_area(tile.component_tiles_spec(), tile.component_infos@.len() as int)
        },
        r is Ok <==> tile_builds(tile.component_tiles_spec()),
        tiles_area(tile.component_tiles_spec(), tile.component_infos@.len() as int) > usize::MAX ==> r == Err::<(), DecodeError>(
            DecodeError::Tile(TileError::Invalid),
        ),
        r is Err ==> r == Err::<(), DecodeError>(DecodeError::Tile(TileError::Invalid)) || (r == Err::<(), DecodeError>(
            DecodeError::Decoding(DecodingError::InvalidPrecinct),
        ) && !all_precincts_ok(tile.component_tiles_spec())),
{
    build_decompositions(tile, storage)
}

} // verus!
