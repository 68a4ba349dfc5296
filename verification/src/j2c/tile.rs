//! Creating tiles and parsing their constituent tile parts.
use crate::error::{DecodeError, DecodingError, MarkerError, Result, TileError};
use crate::j2c::blocks::SubBandType;
use crate::j2c::codestream::{
    advanced, at_byte, coc_marker, cod_marker, has_bytes, qcc_marker, qcd_marker, skip_marker_segment, u16_at,
    u32_at, ComponentInfo, ComponentSizeInfo, Header, ProgressionOrder, SizeData, MAX_LAYER_COUNT,
};
use crate::j2c::markers;
use crate::reader::BitReader;
use crate::j2c::rect::{IntRect, max_int, min_int};
use crate::math::{ceil_div, div_ceil_pow2, div_floor_pow2, pow2_u32, pow2_u64};
use vstd::arithmetic::power2::pow2;
use vstd::prelude::*;

verus! {

/// One tile-part: its packet data, and its packet headers when they are
/// stored apart from the packet data (PPM or PPT markers).
#[derive(Clone, Copy)]
pub struct TilePart<'a> {
    /// The bytes after the SOD marker.
    pub data: &'a [u8],
    /// The packed packet headers of the tile-part, if any.
    pub packed_headers: Option<&'a [u8]>,
}

/// A single tile in the image.
pub struct Tile<'a> {
    pub idx: u32,
    /// The tile parts that contain all the information for all
    /// constituent codeblocks.
    pub tile_parts: Vec<TilePart<'a>>,
    /// Parameters for each component. In most cases, those are directly
    /// inherited from the main header. But in some cases, individual tiles
    /// might override them.
    pub component_infos: Vec<ComponentInfo>,
    /// The rectangle making up the area of the tile. `x1` and `y1` are
    /// exclusive.
    pub rect: IntRect,
    pub progression_order: ProgressionOrder,
    pub num_layers: u8,
    pub mct: bool,
}

/// The rectangle of tile `idx` on the reference grid (B-7 to B-10).
pub open spec fn tile_rect_spec(s: &SizeData, idx: int) -> IntRect {
    let p = idx % s.spec_num_x_tiles();
    let q = idx / s.spec_num_x_tiles();
    IntRect {
        x0: max_int(s.tile_x_offset + p * s.tile_width, s.image_area_x_offset as int) as u32,
        y0: max_int(s.tile_y_offset + q * s.tile_height, s.image_area_y_offset as int) as u32,
        x1: min_int(s.tile_x_offset + (p + 1) * s.tile_width, s.reference_grid_width as int) as u32,
        y1: min_int(s.tile_y_offset + (q + 1) * s.tile_height, s.reference_grid_height as int) as u32,
    }
}

/// A coordinate below the number of tiles starts inside the grid.
proof fn lemma_below_ceil_div(p: int, a: int, b: int)
    requires
        b > 0,
        a >= 0,
        0 <= p < ceil_div(a, b),
    ensures
        p * b < a,
{
    assert(p * b < a) by (nonlinear_arith)
        requires
            b > 0,
            a >= 0,
            0 <= p < (a + b - 1) / b,
    ;
}

/// The start of a tile along one axis: `max(offset + coord * size, lower)`.
fn tile_start(offset: u32, coord: u32, size: u32, lower: u32, end: u32) -> (r: u32)
    requires
        offset + coord * size < end,
    ensures
        r == max_int(offset + coord * size, lower as int),
{
    assert(coord * size <= end) by (nonlinear_arith)
        requires offset + coord * size < end, offset >= 0, coord >= 0, size >= 0;
    let v = offset + coord * size;
    if v >= lower { v } else { lower }
}

/// The end of a tile along one axis: `min(offset + (coord + 1) * size, end)`.
fn tile_end(offset: u32, coord: u32, size: u32, end: u32) -> (r: u32)
    ensures
        r == min_int(offset + (coord + 1) * size, end as int),
{
    let c = coord as u64 + 1;
    assert(c * (size as u64) <= 0x1_0000_0000 * 0xffff_ffff) by (nonlinear_arith)
        requires c <= 0x1_0000_0000, size <= 0xffff_ffff;
    let v = offset as u64 + c * (size as u64);
    if v <= end as u64 { v as u32 } else { end }
}

/// Copies of the component parameters.
pub fn duplicate_infos(infos: &Vec<ComponentInfo>) -> (r: Vec<ComponentInfo>)
    ensures
        r@.len() == infos@.len(),
        forall|i: int| 0 <= i < infos@.len() ==> (#[trigger] r@[i]).same(&infos@[i]),
{
    let mut r: Vec<ComponentInfo> = Vec::new();
    let mut i: usize = 0;
    while i < infos.len()
        invariant
            i <= infos@.len(),
            r@.len() == i,
            forall|j: int| 0 <= j < i ==> (#[trigger] r@[j]).same(&infos@[j]),
        decreases infos@.len() - i,
    {
        r.push(infos[i].duplicate());
        i = i + 1;
    }
    r
}

impl<'a> Tile<'a> {
    /// The tile with index `idx`, with the parameters of the main header and
    /// no tile parts yet.
    pub fn new(idx: u32, header: &Header) -> (r: Tile<'a>)
        requires
            header.size_data.valid(),
            idx < header.size_data.spec_num_x_tiles() * header.size_data.spec_num_y_tiles(),
        ensures
            r.idx == idx,
            r.tile_parts@.len() == 0,
            r.rect == tile_rect_spec(&header.size_data, idx as int),
            r.rect.wf(),
            r.component_infos@.len() == header.component_infos@.len(),
            forall|i: int|
                0 <= i < r.component_infos@.len() ==> (#[trigger] r.component_infos@[i]).same(
                    &header.component_infos@[i],
                ),
            r.progression_order == header.global_coding_style.progression_order,
            r.mct == header.global_coding_style.mct,
            r.num_layers == header.global_coding_style.num_layers,
    {
        let size_data = &header.size_data;
        let x_coord = size_data.tile_x_coord(idx);
        let y_coord = size_data.tile_y_coord(idx);
        let ghost nx = size_data.spec_num_x_tiles();
        let ghost ny = size_data.spec_num_y_tiles();
        proof {
            crate::j2c::codestream::lemma_ceil_div_pos(
                size_data.reference_grid_width - size_data.tile_x_offset,
                size_data.tile_width as int,
            );
            assert(nx > 0);
            assert(0 <= x_coord < nx) by (nonlinear_arith)
                requires x_coord == (idx as int) % nx, nx > 0;
            assert(0 <= y_coord < ny) by (nonlinear_arith)
                requires y_coord == (idx as int) / nx, nx > 0, 0 <= idx < nx * ny;
            lemma_below_ceil_div(
                x_coord as int,
                size_data.reference_grid_width - size_data.tile_x_offset,
                size_data.tile_width as int,
            );
            lemma_below_ceil_div(
                y_coord as int,
                size_data.reference_grid_height - size_data.tile_y_offset,
                size_data.tile_height as int,
            );
        }

        // See B-7, B-8, B-9 and B-10.
        let x0 = tile_start(
            size_data.tile_x_offset,
            x_coord,
            size_data.tile_width,
            size_data.image_area_x_offset,
            size_data.reference_grid_width,
        );
        let y0 = tile_start(
            size_data.tile_y_offset,
            y_coord,
            size_data.tile_height,
            size_data.image_area_y_offset,
            size_data.reference_grid_height,
        );
        // Note that `x1` and `y1` are exclusive.
        let x1 = tile_end(size_data.tile_x_offset, x_coord, size_data.tile_width, size_data.reference_grid_width);
        let y1 = tile_end(size_data.tile_y_offset, y_coord, size_data.tile_height, size_data.reference_grid_height);
        proof {
            assert(x_coord * size_data.tile_width + size_data.tile_width == (x_coord + 1) * size_data.tile_width)
                by (nonlinear_arith);
            assert(y_coord * size_data.tile_height + size_data.tile_height == (y_coord + 1) * size_data.tile_height)
                by (nonlinear_arith);
            assert(x_coord * size_data.tile_width >= 0) by (nonlinear_arith);
            assert(y_coord * size_data.tile_height >= 0) by (nonlinear_arith);
        }
        let rect = IntRect::from_ltrb(x0, y0, x1, y1);

        Tile {
            idx,
            // Will be filled once we start parsing.
            tile_parts: Vec::new(),
            rect,
            // By default, each tile inherits the settings from the main
            // header. When parsing the tile parts, some of these settings
            // might be overridden.
            component_infos: duplicate_infos(&header.component_infos),
            progression_order: header.global_coding_style.progression_order,
            mct: header.global_coding_style.mct,
            num_layers: header.global_coding_style.num_layers,
        }
    }

    /// The component tiles, one per component, as `component_tiles`
    /// computes them.
    pub open spec fn component_tiles_spec(&'a self) -> Seq<ComponentTile<'a>> {
        Seq::new(
            self.component_infos@.len(),
            |i: int|
                ComponentTile {
                    tile: self,
                    component_info: &self.component_infos@[i],
                    rect: component_rect_spec(self.rect, self.component_infos@[i].size_info),
                },
        )
    }

    /// The component tiles, one per component.
    pub fn component_tiles(&'a self) -> (r: Vec<ComponentTile<'a>>)
        requires
            self.rect.wf(),
            forall|i: int| 0 <= i < self.component_infos@.len() ==> (#[trigger] self.component_infos@[i]).usable(),
        ensures
            r@ == self.component_tiles_spec(),
            r@.len() == self.component_infos@.len(),
            forall|i: int|
                0 <= i < r@.len() ==> (#[trigger] r@[i]).tile == self && r@[i].component_info
                    == &self.component_infos@[i] && r@[i].rect == component_rect_spec(
                    self.rect,
                    self.component_infos@[i].size_info,
                ) && r@[i].wf(),
    {
        let mut r: Vec<ComponentTile<'a>> = Vec::new();
        let mut i: usize = 0;
        while i < self.component_infos.len()
            invariant
                i <= self.component_infos@.len(),
                r@.len() == i,
                self.rect.wf(),
                forall|j: int| 0 <= j < self.component_infos@.len() ==> (#[trigger] self.component_infos@[j]).usable(),
                forall|j: int|
                    0 <= j < i ==> (#[trigger] r@[j]).tile == self && r@[j].component_info
                        == &self.component_infos@[j] && r@[j].rect == component_rect_spec(
                        self.rect,
                        self.component_infos@[j].size_info,
                    ) && r@[j].wf(),
            decreases self.component_infos@.len() - i,
        {
            r.push(ComponentTile::new(self, &self.component_infos[i]));
            i = i + 1;
        }
        r
    }
}

/// The rectangle of a component tile (B-12).
pub open spec fn component_rect_spec(t: IntRect, s: ComponentSizeInfo) -> IntRect {
    IntRect {
        x0: ceil_div(t.x0 as int, s.horizontal_resolution as int) as u32,
        y0: ceil_div(t.y0 as int, s.vertical_resolution as int) as u32,
        x1: ceil_div(t.x1 as int, s.horizontal_resolution as int) as u32,
        y1: ceil_div(t.y1 as int, s.vertical_resolution as int) as u32,
    }
}

/// Rounding up after dividing keeps the order.
pub proof fn lemma_ceil_div_mono(a: int, b: int, d: int)
    requires
        0 <= a <= b,
        d > 0,
    ensures
        0 <= ceil_div(a, d) <= ceil_div(b, d),
        ceil_div(a, d) <= a,
        ceil_div(a, d) == a / d || ceil_div(a, d) == a / d + 1,
{
    assert(0 <= (a + d - 1) / d <= (b + d - 1) / d) by (nonlinear_arith)
        requires 0 <= a <= b, d > 0;
    assert((a + d - 1) / d <= a) by (nonlinear_arith)
        requires 0 <= a, d > 0;
    assert((a + d - 1) / d == a / d || (a + d - 1) / d == a / d + 1) by (nonlinear_arith)
        requires 0 <= a, d > 0;
}

/// A tile, instantiated to a specific component.
#[derive(Copy, Clone)]
pub struct ComponentTile<'a> {
    /// The underlying tile.
    pub tile: &'a Tile<'a>,
    /// The information of the component of the tile.
    pub component_info: &'a ComponentInfo,
    /// The rectangle of the component tile.
    pub rect: IntRect,
}

impl<'a> ComponentTile<'a> {
    /// The component parameters are those that the parser guarantees and
    /// the rectangle is well-formed.
    pub open spec fn wf(&self) -> bool {
        self.component_info.usable() && self.rect.wf()
    }

    pub fn new(tile: &'a Tile<'a>, component_info: &'a ComponentInfo) -> (r: Self)
        requires
            component_info.size_info.horizontal_resolution >= 1,
            component_info.size_info.vertical_resolution >= 1,
        ensures
            r.tile == tile,
            r.component_info == component_info,
            r.rect == component_rect_spec(tile.rect, component_info.size_info),
            tile.rect.wf() ==> r.rect.wf(),
    {
        let tile_rect = tile.rect;
        let hr = component_info.size_info.horizontal_resolution as u32;
        let vr = component_info.size_info.vertical_resolution as u32;
        let rect = if hr == 1 && vr == 1 {
            proof {
                assert(ceil_div(tile_rect.x0 as int, 1) == tile_rect.x0);
                assert(ceil_div(tile_rect.y0 as int, 1) == tile_rect.y0);
                assert(ceil_div(tile_rect.x1 as int, 1) == tile_rect.x1);
                assert(ceil_div(tile_rect.y1 as int, 1) == tile_rect.y1);
            }
            tile_rect
        } else {
            // As described in B-12.
            let t_x0 = crate::math::div_ceil(tile_rect.x0, hr);
            let t_y0 = crate::math::div_ceil(tile_rect.y0, vr);
            let t_x1 = crate::math::div_ceil(tile_rect.x1, hr);
            let t_y1 = crate::math::div_ceil(tile_rect.y1, vr);
            IntRect::from_ltrb(t_x0, t_y0, t_x1, t_y1)
        };
        proof {
            if tile_rect.wf() {
                lemma_ceil_div_mono(tile_rect.x0 as int, tile_rect.x1 as int, hr as int);
                lemma_ceil_div_mono(tile_rect.y0 as int, tile_rect.y1 as int, vr as int);
            }
        }
        ComponentTile { tile, component_info, rect }
    }

    /// The resolution tiles, one per resolution level.
    pub fn resolution_tiles(&self) -> (r: Vec<ResolutionTile<'a>>)
        requires
            self.wf(),
        ensures
            r@.len() == self.component_info.spec_num_resolution_levels(),
            forall|i: int|
                0 <= i < r@.len() ==> (#[trigger] r@[i]).component_tile == *self && r@[i].resolution == i
                    && r@[i].wf() && r@[i] == resolution_tile_spec(*self, i),
    {
        let n = self.component_info.coding_style.parameters.num_resolution_levels;
        let mut r: Vec<ResolutionTile<'a>> = Vec::new();
        let mut i: u8 = 0;
        while i < n
            invariant
                i <= n,
                n == self.component_info.spec_num_resolution_levels(),
                self.wf(),
                r@.len() == i,
                forall|j: int|
                    0 <= j < i ==> (#[trigger] r@[j]).component_tile == *self && r@[j].resolution == j
                        && r@[j].wf() && r@[j] == resolution_tile_spec(*self, j),
            decreases n - i,
        {
            r.push(ResolutionTile::new(*self, i as u16));
            i = i + 1;
        }
        r
    }
}

/// A tile instantiated to a specific resolution of a component tile.
#[derive(Copy, Clone)]
pub struct ResolutionTile<'a> {
    /// The resolution of the tile.
    pub resolution: u16,
    /// The decomposition level of the tile.
    pub decomposition_level: u16,
    /// The underlying component tile.
    pub component_tile: ComponentTile<'a>,
    /// The rectangle of the resolution tile.
    pub rect: IntRect,
}

/// The rectangle of a resolution tile (B-14): the component tile rectangle
/// divided by `2^(N_L - r)`, rounded up.
pub open spec fn resolution_rect_spec(c: IntRect, n_l: int, r: int) -> IntRect {
    let d = pow2((n_l - r) as nat) as int;
    IntRect {
        x0: ceil_div(c.x0 as int, d) as u32,
        y0: ceil_div(c.y0 as int, d) as u32,
        x1: ceil_div(c.x1 as int, d) as u32,
        y1: ceil_div(c.y1 as int, d) as u32,
    }
}

/// The rectangle of a sub-band (B-15): the component tile rectangle moved
/// by half a step for the high-pass directions and divided by `2^n_b`,
/// rounded up.
pub open spec fn sub_band_rect_spec(c: IntRect, n_b: int, sub_band_type: SubBandType) -> IntRect {
    let xo: int = if sub_band_type == SubBandType::HighLow || sub_band_type == SubBandType::HighHigh {
        1
    } else {
        0
    };
    let yo: int = if sub_band_type == SubBandType::LowHigh || sub_band_type == SubBandType::HighHigh {
        1
    } else {
        0
    };
    let half = if n_b >= 1 { pow2((n_b - 1) as nat) as int } else { 0 };
    let d = pow2(n_b as nat) as int;
    IntRect {
        x0: ceil_div(max_int(c.x0 - half * xo, 0), d) as u32,
        y0: ceil_div(max_int(c.y0 - half * yo, 0), d) as u32,
        x1: ceil_div(max_int(c.x1 - half * xo, 0), d) as u32,
        y1: ceil_div(max_int(c.y1 - half * yo, 0), d) as u32,
    }
}

/// The resolution tile of resolution `r` of a component tile: the values
/// that `ResolutionTile::new` computes.
pub open spec fn resolution_tile_spec<'a>(ct: ComponentTile<'a>, r: int) -> ResolutionTile<'a> {
    let n_l = ct.component_info.spec_num_decomposition_levels() as int;
    ResolutionTile {
        resolution: r as u16,
        decomposition_level: (if r == 0 { n_l } else { n_l - (r - 1) }) as u16,
        component_tile: ct,
        rect: resolution_rect_spec(ct.rect, n_l, r),
    }
}

/// A precinct of a resolution tile.
#[derive(Copy, Clone)]
pub struct PrecinctData {
    /// The x coordinate mapped back to the reference grid.
    pub r_x: u32,
    /// The y coordinate mapped back to the reference grid.
    pub r_y: u32,
    /// The actual rectangle of the precinct (in the sub-band coordinate
    /// system).
    pub rect: IntRect,
    /// The index of the precinct in the sub-band.
    pub idx: u64,
}

/// `v`, capped at the largest `u32`.
pub open spec fn saturate(v: int) -> u32 {
    min_int(v, u32::MAX as int) as u32
}

/// `v`, capped at the largest `u32`.
fn saturate_u128(v: u128) -> (r: u32)
    ensures
        r == saturate(v as int),
{
    if v <= u32::MAX as u128 { v as u32 } else { u32::MAX }
}

/// The number of precincts along an axis from `a0` to `a1` for precinct
/// exponent `e` (B-16).
pub open spec fn num_precincts_spec(a0: int, a1: int, e: int) -> int {
    if a0 == a1 {
        0
    } else {
        ceil_div(a1, pow2(e as nat) as int) - a0 / (pow2(e as nat) as int)
    }
}

/// Counting precincts does not underflow.
proof fn lemma_precinct_count(a0: int, a1: int, e: int)
    requires
        0 <= a0 <= a1,
        0 <= e,
    ensures
        a0 / (pow2(e as nat) as int) <= ceil_div(a1, pow2(e as nat) as int),
{
    vstd::arithmetic::power2::lemma_pow2_pos(e as nat);
    let d = pow2(e as nat) as int;
    assert(a0 / d <= (a1 + d - 1) / d) by (nonlinear_arith)
        requires 0 <= a0 <= a1, d > 0;
}

impl<'a> ResolutionTile<'a> {
    /// The resolution lies below the number of resolution levels of a
    /// well-formed component tile, and the fields are those `new` sets.
    pub open spec fn wf(&self) -> bool {
        let n_l = self.component_tile.component_info.spec_num_decomposition_levels();
        &&& self.component_tile.wf()
        &&& self.resolution < self.component_tile.component_info.spec_num_resolution_levels()
        &&& self.decomposition_level == (if self.resolution == 0 {
            n_l as int
        } else {
            n_l - (self.resolution - 1)
        })
        &&& self.rect == resolution_rect_spec(self.component_tile.rect, n_l as int, self.resolution as int)
        &&& self.rect.wf()
    }

    pub fn new(component_tile: ComponentTile<'a>, resolution: u16) -> (r: ResolutionTile<'a>)
        requires
            component_tile.wf(),
            resolution < component_tile.component_info.spec_num_resolution_levels(),
        ensures
            r.component_tile == component_tile,
            r.resolution == resolution,
            r.wf(),
            r == resolution_tile_spec(component_tile, resolution as int),
    {
        let params = &component_tile.component_info.coding_style.parameters;
        // See formula B-14.
        let n_l = params.num_decomposition_levels;
        let e = n_l as u32 - resolution as u32;
        let crect = component_tile.rect;
        let tx0 = div_ceil_pow2(crect.x0, e);
        let ty0 = div_ceil_pow2(crect.y0, e);
        let tx1 = div_ceil_pow2(crect.x1, e);
        let ty1 = div_ceil_pow2(crect.y1, e);
        proof {
            vstd::arithmetic::power2::lemma_pow2_pos(e as nat);
            lemma_ceil_div_mono(crect.x0 as int, crect.x1 as int, pow2(e as nat) as int);
            lemma_ceil_div_mono(crect.y0 as int, crect.y1 as int, pow2(e as nat) as int);
        }
        let rect = IntRect::from_ltrb(tx0, ty0, tx1, ty1);

        // Decomposition level and resolution level are inversely related
        // to each other. In addition to that, there is always one more
        // resolution than decomposition levels (resolution level 0 only
        // include the LL subband of the N_L decomposition, resolution level
        // 1 includes the HL, LH and HH subbands of the N_L decomposition.
        let decomposition_level: u16 = if resolution == 0 {
            n_l as u16
        } else {
            n_l as u16 - (resolution - 1)
        };

        ResolutionTile { resolution, decomposition_level, component_tile, rect }
    }

    /// The rectangle of a sub-band of this resolution (B-15).
    pub fn sub_band_rect(&self, sub_band_type: SubBandType) -> (r: IntRect)
        requires
            self.wf(),
            self.resolution == 0 ==> sub_band_type == SubBandType::LowLow,
        ensures
            r == sub_band_rect_spec(self.component_tile.rect, self.decomposition_level as int, sub_band_type),
            r.wf(),
    {
        let xo_b: bool = sub_band_type == SubBandType::HighLow || sub_band_type == SubBandType::HighHigh;
        let yo_b: bool = sub_band_type == SubBandType::LowHigh || sub_band_type == SubBandType::HighHigh;
        let dl = self.decomposition_level as u32;
        let crect = self.component_tile.rect;
        proof {
            if self.resolution > 0 {
                assert(dl >= 1);
            }
        }
        let numerator_x: u32 = if xo_b { pow2_u32(dl - 1) } else { 0 };
        let numerator_y: u32 = if yo_b { pow2_u32(dl - 1) } else { 0 };
        let tbx_0 = div_ceil_pow2(crect.x0.saturating_sub(numerator_x), dl);
        let tbx_1 = div_ceil_pow2(crect.x1.saturating_sub(numerator_x), dl);
        let tby_0 = div_ceil_pow2(crect.y0.saturating_sub(numerator_y), dl);
        let tby_1 = div_ceil_pow2(crect.y1.saturating_sub(numerator_y), dl);
        proof {
            vstd::arithmetic::power2::lemma_pow2_pos(dl as nat);
            let d = pow2(dl as nat) as int;
            lemma_ceil_div_mono(crect.x0.saturating_sub(numerator_x) as int, crect.x1.saturating_sub(numerator_x) as int, d);
            lemma_ceil_div_mono(crect.y0.saturating_sub(numerator_y) as int, crect.y1.saturating_sub(numerator_y) as int, d);
        }
        IntRect::from_ltrb(tbx_0, tby_0, tbx_1, tby_1)
    }

    /// The exponent for determining the horizontal size of a precinct.
    ///
    /// `PPx` in the specification.
    pub fn precinct_exponent_x(&self) -> (r: u8)
        requires
            self.wf(),
        ensures
            r == self.component_tile.component_info.coding_style.parameters.precinct_exponents@[self.resolution as int].0,
            r <= 15,
    {
        self.component_tile.component_info.coding_style.parameters.precinct_exponents[self.resolution as usize].0
    }

    /// The exponent for determining the vertical size of a precinct.
    ///
    /// `PPy` in the specification.
    pub fn precinct_exponent_y(&self) -> (r: u8)
        requires
            self.wf(),
        ensures
            r == self.component_tile.component_info.coding_style.parameters.precinct_exponents@[self.resolution as int].1,
            r <= 15,
    {
        self.component_tile.component_info.coding_style.parameters.precinct_exponents[self.resolution as usize].1
    }

    /// The number of precincts in the x direction (B-16).
    pub fn num_precincts_x(&self) -> (r: u32)
        requires
            self.wf(),
        ensures
            r == num_precincts_spec(self.rect.x0 as int, self.rect.x1 as int, self.spec_ppx() as int),
    {
        // See B-16.
        let x0 = self.rect.x0;
        let x1 = self.rect.x1;
        let e = self.precinct_exponent_x() as u32;
        if x0 == x1 {
            0
        } else {
            proof {
                lemma_precinct_count(x0 as int, x1 as int, e as int);
            }
            div_ceil_pow2(x1, e) - div_floor_pow2(x0, e)
        }
    }

    /// The number of precincts in the y direction (B-16).
    pub fn num_precincts_y(&self) -> (r: u32)
        requires
            self.wf(),
        ensures
            r == num_precincts_spec(self.rect.y0 as int, self.rect.y1 as int, self.spec_ppy() as int),
    {
        // See B-16.
        let y0 = self.rect.y0;
        let y1 = self.rect.y1;
        let e = self.precinct_exponent_y() as u32;
        if y0 == y1 {
            0
        } else {
            proof {
                lemma_precinct_count(y0 as int, y1 as int, e as int);
            }
            div_ceil_pow2(y1, e) - div_floor_pow2(y0, e)
        }
    }

    /// The number of precincts of the resolution tile (B-16).
    pub open spec fn spec_num_precincts(&self) -> int {
        num_precincts_spec(self.rect.x0 as int, self.rect.x1 as int, self.spec_ppx() as int)
            * num_precincts_spec(self.rect.y0 as int, self.rect.y1 as int, self.spec_ppy() as int)
    }

    /// A resolution tile has fewer than `2^64` precincts.
    pub proof fn lemma_num_precincts_range(&self)
        requires
            self.wf(),
        ensures
            0 <= self.spec_num_precincts() < 0x1_0000_0000_0000_0000,
    {
        let ex = self.spec_ppx() as int;
        let ey = self.spec_ppy() as int;
        vstd::arithmetic::power2::lemma_pow2_pos(ex as nat);
        vstd::arithmetic::power2::lemma_pow2_pos(ey as nat);
        let dx = pow2(ex as nat) as int;
        let dy = pow2(ey as nat) as int;
        let x0 = self.rect.x0 as int;
        let x1 = self.rect.x1 as int;
        let y0 = self.rect.y0 as int;
        let y1 = self.rect.y1 as int;
        assert(0 <= x0 / dx <= (x1 + dx - 1) / dx <= x1) by (nonlinear_arith)
            requires 0 <= x0 <= x1, dx > 0;
        assert(0 <= y0 / dy <= (y1 + dy - 1) / dy <= y1) by (nonlinear_arith)
            requires 0 <= y0 <= y1, dy > 0;
        let nx = num_precincts_spec(x0, x1, ex);
        let ny = num_precincts_spec(y0, y1, ey);
        assert(0 <= nx <= 0xffff_ffff);
        assert(0 <= ny <= 0xffff_ffff);
        assert(0 <= nx * ny <= 0xffff_ffff * 0xffff_ffff) by (nonlinear_arith)
            requires 0 <= nx <= 0xffff_ffff, 0 <= ny <= 0xffff_ffff;
    }

    /// The number of precincts of the resolution tile.
    pub fn num_precincts(&self) -> (r: u64)
        requires
            self.wf(),
        ensures
            r == self.spec_num_precincts(),
    {
        let x = self.num_precincts_x() as u64;
        let y = self.num_precincts_y() as u64;
        assert(x * y <= 0xffff_ffff * 0xffff_ffff) by (nonlinear_arith)
            requires x <= 0xffff_ffff, y <= 0xffff_ffff;
        x * y
    }

    /// `PPx` of this resolution.
    pub open spec fn spec_ppx(&self) -> u8 {
        self.component_tile.component_info.coding_style.parameters.precinct_exponents@[self.resolution as int].0
    }

    /// `PPy` of this resolution.
    pub open spec fn spec_ppy(&self) -> u8 {
        self.component_tile.component_info.coding_style.parameters.precinct_exponents@[self.resolution as int].1
    }

    /// The exponent of the code-block width: `xcb'` of B-17.
    pub open spec fn spec_xcb(&self) -> int {
        let xcb = self.component_tile.component_info.coding_style.parameters.code_block_width as int;
        let limit: int = if self.resolution > 0 { self.spec_ppx() - 1 } else { self.spec_ppx() as int };
        min_int(xcb, limit)
    }

    /// The exponent of the code-block height: `ycb'` of B-18.
    pub open spec fn spec_ycb(&self) -> int {
        let ycb = self.component_tile.component_info.coding_style.parameters.code_block_height as int;
        let limit: int = if self.resolution > 0 { self.spec_ppy() - 1 } else { self.spec_ppy() as int };
        min_int(ycb, limit)
    }

    /// The code-block width (B-17). At resolutions above zero the precinct
    /// exponent must be positive.
    pub fn code_block_width(&self) -> (r: u32)
        requires
            self.wf(),
            self.resolution > 0 ==> self.spec_ppx() >= 1,
        ensures
            r == pow2(self.spec_xcb() as nat),
            0 <= self.spec_xcb() <= 15,
            r >= 1,
    {
        // See B-17.
        let xcb = self.component_tile.component_info.coding_style.parameters.code_block_width;
        let ppx = self.precinct_exponent_x();
        let limit = if self.resolution > 0 { ppx - 1 } else { ppx };
        let xcb = if xcb <= limit { xcb } else { limit };
        pow2_u32(xcb as u32)
    }

    /// The code-block height (B-18). At resolutions above zero the precinct
    /// exponent must be positive.
    pub fn code_block_height(&self) -> (r: u32)
        requires
            self.wf(),
            self.resolution > 0 ==> self.spec_ppy() >= 1,
        ensures
            r == pow2(self.spec_ycb() as nat),
            0 <= self.spec_ycb() <= 15,
            r >= 1,
    {
        // See B-18.
        let ycb = self.component_tile.component_info.coding_style.parameters.code_block_height;
        let ppy = self.precinct_exponent_y();
        let limit = if self.resolution > 0 { ppy - 1 } else { ppy };
        let ycb = if ycb <= limit { ycb } else { limit };
        pow2_u32(ycb as u32)
    }

    /// The precinct with index `k` in raster order (B.6).
    pub open spec fn spec_precinct(&self, k: int) -> PrecinctData {
        let nx = num_precincts_spec(self.rect.x0 as int, self.rect.x1 as int, self.spec_ppx() as int);
        let ppx = self.spec_ppx() as int;
        let ppy = self.spec_ppy() as int;
        let ex: int = if self.resolution == 0 { ppx } else { ppx - 1 };
        let ey: int = if self.resolution == 0 { ppy } else { ppy - 1 };
        let sx = (self.rect.x0 as int) / (pow2(ppx as nat) as int) + k % nx;
        let sy = (self.rect.y0 as int) / (pow2(ppy as nat) as int) + k / nx;
        let n_l = self.component_tile.component_info.spec_num_decomposition_levels() as int;
        let scale = pow2((n_l - self.resolution) as nat) as int;
        let info = self.component_tile.component_info.size_info;
        PrecinctData {
            r_x: saturate(max_int(
                self.component_tile.tile.rect.x0 as int,
                sx * pow2(ppx as nat) * scale * info.horizontal_resolution,
            )),
            r_y: saturate(max_int(
                self.component_tile.tile.rect.y0 as int,
                sy * pow2(ppy as nat) * scale * info.vertical_resolution,
            )),
            rect: IntRect {
                x0: saturate(sx * pow2(ex as nat)),
                y0: saturate(sy * pow2(ey as nat)),
                x1: saturate((sx + 1) * pow2(ex as nat)),
                y1: saturate((sy + 1) * pow2(ey as nat)),
            },
            idx: k as u64,
        }
    }

    /// The precinct with index `k`, for `nx` precincts in the x direction.
    fn precinct_at(&self, k: u64, nx: u32) -> (r: PrecinctData)
        requires
            self.wf(),
            self.resolution > 0 ==> self.spec_ppx() >= 1 && self.spec_ppy() >= 1,
            nx == num_precincts_spec(self.rect.x0 as int, self.rect.x1 as int, self.spec_ppx() as int),
            nx > 0,
        ensures
            r == self.spec_precinct(k as int),
    {
        let ppx = self.precinct_exponent_x() as u32;
        let ppy = self.precinct_exponent_y() as u32;
        let ex: u32 = if self.resolution == 0 { ppx } else { ppx - 1 };
        let ey: u32 = if self.resolution == 0 { ppy } else { ppy - 1 };
        let px = k % (nx as u64);
        let py = k / (nx as u64);
        let sx: u128 = div_floor_pow2(self.rect.x0, ppx) as u128 + px as u128;
        let sy: u128 = div_floor_pow2(self.rect.y0, ppy) as u128 + py as u128;
        let info = self.component_tile.component_info;
        let n_l = info.coding_style.parameters.num_decomposition_levels as u32;
        let scale = pow2_u64(n_l - self.resolution as u32) as u128;
        let dx = pow2_u64(ppx) as u128;
        let dy = pow2_u64(ppy) as u128;
        let dex = pow2_u64(ex) as u128;
        let dey = pow2_u64(ey) as u128;
        let hr = info.size_info.horizontal_resolution as u128;
        let vr = info.size_info.vertical_resolution as u128;
        proof {
            vstd::arithmetic::power2::lemma2_to64();
            vstd::arithmetic::power2::lemma_pow2_strictly_increases(ppx as nat, 16);
            vstd::arithmetic::power2::lemma_pow2_strictly_increases(ppy as nat, 16);
            if ex < 15 { vstd::arithmetic::power2::lemma_pow2_strictly_increases(ex as nat, 15); }
            if ey < 15 { vstd::arithmetic::power2::lemma_pow2_strictly_increases(ey as nat, 15); }
            if n_l - self.resolution < 32 {
                vstd::arithmetic::power2::lemma_pow2_strictly_increases((n_l - self.resolution) as nat, 32);
            }
            assert(py <= 0xffff_ffff_ffff_ffff);
            assert(sx <= 0x1_0000_0000_0000_0000 + 0x1_0000_0000);
            assert(sy <= 0x1_0000_0000_0000_0000 + 0x1_0000_0000);
            assert(sx * dx * scale * hr <= 0x1_0000_0001_0000_0000 * 0x10000 * 0x1_0000_0000 * 255)
                by (nonlinear_arith)
                requires sx <= 0x1_0000_0001_0000_0000, dx <= 0x10000, scale <= 0x1_0000_0000, hr <= 255;
            assert(sy * dy * scale * vr <= 0x1_0000_0001_0000_0000 * 0x10000 * 0x1_0000_0000 * 255)
                by (nonlinear_arith)
                requires sy <= 0x1_0000_0001_0000_0000, dy <= 0x10000, scale <= 0x1_0000_0000, vr <= 255;
            assert((sx + 1) * dex <= 0x1_0000_0001_0000_0001 * 0x8000) by (nonlinear_arith)
                requires sx <= 0x1_0000_0001_0000_0000, dex <= 0x8000;
            assert((sy + 1) * dey <= 0x1_0000_0001_0000_0001 * 0x8000) by (nonlinear_arith)
                requires sy <= 0x1_0000_0001_0000_0000, dey <= 0x8000;
            assert(sx * dex <= (sx + 1) * dex) by (nonlinear_arith) requires sx >= 0, dex >= 0;
            assert(sy * dey <= (sy + 1) * dey) by (nonlinear_arith) requires sy >= 0, dey >= 0;
        }
        assert(sx * dx <= 0x1_0000_0001_0000_0000 * 0x10000) by (nonlinear_arith)
            requires sx <= 0x1_0000_0001_0000_0000, dx <= 0x10000;
        assert(sx * dx * scale <= 0x1_0000_0001_0000_0000 * 0x10000 * 0x1_0000_0000) by (nonlinear_arith)
            requires sx * dx <= 0x1_0000_0001_0000_0000 * 0x10000, scale <= 0x1_0000_0000, sx * dx >= 0;
        assert(sy * dy <= 0x1_0000_0001_0000_0000 * 0x10000) by (nonlinear_arith)
            requires sy <= 0x1_0000_0001_0000_0000, dy <= 0x10000;
        assert(sy * dy * scale <= 0x1_0000_0001_0000_0000 * 0x10000 * 0x1_0000_0000) by (nonlinear_arith)
            requires sy * dy <= 0x1_0000_0001_0000_0000 * 0x10000, scale <= 0x1_0000_0000, sy * dy >= 0;
        let ref_x = sx * dx * scale * hr;
        let ref_y = sy * dy * scale * vr;
        let tile_rect = self.component_tile.tile.rect;
        let r_x = saturate_u128(if ref_x >= tile_rect.x0 as u128 { ref_x } else { tile_rect.x0 as u128 });
        let r_y = saturate_u128(if ref_y >= tile_rect.y0 as u128 { ref_y } else { tile_rect.y0 as u128 });
        let rect = IntRect {
            x0: saturate_u128(sx * dex),
            y0: saturate_u128(sy * dey),
            x1: saturate_u128((sx + 1) * dex),
            y1: saturate_u128((sy + 1) * dey),
        };
        PrecinctData { r_x, r_y, rect, idx: k }
    }

    /// The precincts of the resolution tile in raster order, or `None` when
    /// a precinct exponent of a resolution above zero is zero, which leaves
    /// the sub-bands without a precinct size.
    pub fn precincts(&self) -> (r: Option<Vec<PrecinctData>>)
        requires
            self.wf(),
        ensures
            r is None <==> (self.resolution > 0 && (self.spec_ppx() == 0 || self.spec_ppy() == 0)),
            r matches Some(v) ==> {
                &&& v@.len() == num_precincts_spec(self.rect.x0 as int, self.rect.x1 as int, self.spec_ppx() as int)
                    * num_precincts_spec(self.rect.y0 as int, self.rect.y1 as int, self.spec_ppy() as int)
                &&& forall|k: int| 0 <= k < v@.len() ==> (#[trigger] v@[k]) == self.spec_precinct(k)
            },
    {
        if self.resolution > 0 && (self.precinct_exponent_x() == 0 || self.precinct_exponent_y() == 0) {
            return None;
        }
        let nx = self.num_precincts_x();
        let total = self.num_precincts();
        let mut v: Vec<PrecinctData> = Vec::new();
        let mut k: u64 = 0;
        while k < total
            invariant
                self.wf(),
                self.resolution > 0 ==> self.spec_ppx() >= 1 && self.spec_ppy() >= 1,
                nx == num_precincts_spec(self.rect.x0 as int, self.rect.x1 as int, self.spec_ppx() as int),
                total == nx * num_precincts_spec(self.rect.y0 as int, self.rect.y1 as int, self.spec_ppy() as int),
                k <= total,
                v@.len() == k,
                forall|j: int| 0 <= j < k ==> (#[trigger] v@[j]) == self.spec_precinct(j),
            decreases total - k,
        {
            proof {
                if nx == 0 {
                    assert(total == 0) by (nonlinear_arith) requires total == nx * num_precincts_spec(self.rect.y0 as int, self.rect.y1 as int, self.spec_ppy() as int), nx == 0;
                }
            }
            v.push(self.precinct_at(k, nx));
            k = k + 1;
        }
        Some(v)
    }
}

impl<'a> Tile<'a> {
    /// The properties that hold of every tile that `parse` returns for a
    /// header: the rectangle is that of its index, and each component keeps
    /// the sizes of the main header with parameters that are consistent.
    pub open spec fn wf(&self, header: &Header) -> bool {
        &&& self.rect == tile_rect_spec(&header.size_data, self.idx as int)
        &&& self.rect.wf()
        &&& self.component_infos@.len() == header.component_infos@.len()
        &&& forall|i: int|
            0 <= i < self.component_infos@.len() ==> (#[trigger] self.component_infos@[i]).usable()
                && self.component_infos@[i].size_info == header.component_infos@[i].size_info
        &&& 1 <= self.num_layers <= MAX_LAYER_COUNT
    }
}

/// The header of a tile-part (the SOT marker segment).
pub struct TilePartHeader {
    pub tile_index: u16,
    pub tile_part_length: u32,
}

/// SOT marker (A.4.2).
pub fn sot_marker(reader: &mut BitReader<'_>) -> (r: Option<TilePartHeader>)
    requires
        at_byte(*old(reader)),
    ensures
        at_byte(*final(reader)),
        final(reader).bytes() == old(reader).bytes(),
        ({
            let b = old(reader).bytes();
            let p = old(reader).spec_byte_pos();
            if has_bytes(*old(reader), 10) {
                r matches Some(h) && h.tile_index == u16_at(b, p + 2) && h.tile_part_length == u32_at(b, p + 4)
                    && advanced(*old(reader), *final(reader), 10)
            } else {
                r is None
            }
        }),
{
    if reader.peek_bytes(10).is_none() {
        return None;
    }
    // Length.
    let _ = reader.read_u16();
    let tile_index = match reader.read_u16() {
        Some(v) => v,
        None => return None,
    };
    let tile_part_length = match reader.read_u32() {
        Some(v) => v,
        None => return None,
    };
    // We infer those ourselves.
    let _tile_part_index = reader.read_byte();
    let _num_tile_parts = reader.read_byte();
    Some(TilePartHeader { tile_index, tile_part_length })
}

/// PPT marker (A.7.5): the packed packet headers of a tile-part.
pub fn ppt_marker<'a>(reader: &mut BitReader<'a>) -> (r: Option<&'a [u8]>)
    requires
        at_byte(*old(reader)),
    ensures
        at_byte(*final(reader)),
        final(reader).bytes() == old(reader).bytes(),
        ({
            let b = old(reader).bytes();
            let p = old(reader).spec_byte_pos();
            if has_bytes(*old(reader), 3) && u16_at(b, p) >= 3 && p + u16_at(b, p) <= b.len() {
                r matches Some(d) && d@ == b.subrange(p + 3, p + u16_at(b, p)) && advanced(
                    *old(reader),
                    *final(reader),
                    u16_at(b, p),
                )
            } else {
                r is None
            }
        }),
{
    if reader.peek_bytes(3).is_none() {
        return None;
    }
    let length = match reader.read_u16() {
        Some(v) => v,
        None => return None,
    };
    if length < 3 {
        return None;
    }
    if reader.peek_bytes((length - 2) as usize).is_none() {
        return None;
    }
    // Index of the marker segment.
    let _ = reader.read_byte();
    reader.read_bytes((length - 3) as usize)
}

/// Override the coding style of all components of a tile with a COD marker
/// of its first tile-part header.
fn apply_tile_cod<'a>(tile: &mut Tile<'a>, cod: &crate::j2c::codestream::CodingStyleDefault, header: &Header)
    requires
        old(tile).wf(header),
        1 <= cod.num_layers <= MAX_LAYER_COUNT,
        cod.component_parameters.parameters.wf(),
    ensures
        final(tile).wf(header),
        final(tile).idx == old(tile).idx,
        final(tile).tile_parts@ == old(tile).tile_parts@,
        final(tile).mct == cod.mct,
        final(tile).num_layers == cod.num_layers,
        final(tile).progression_order == cod.progression_order,
        forall|i: int|
            0 <= i < final(tile).component_infos@.len() ==> (#[trigger] final(tile).component_infos@[i]).coding_style.same(
                &cod.component_parameters,
            ),
{
    tile.mct = cod.mct;
    tile.num_layers = cod.num_layers;
    tile.progression_order = cod.progression_order;
    let mut i: usize = 0;
    while i < tile.component_infos.len()
        invariant
            i <= tile.component_infos@.len(),
            tile.component_infos@.len() == header.component_infos@.len(),
            tile.rect == old(tile).rect,
            tile.idx == old(tile).idx,
            tile.tile_parts@ == old(tile).tile_parts@,
            tile.mct == cod.mct,
            tile.num_layers == cod.num_layers,
            tile.progression_order == cod.progression_order,
            old(tile).wf(header),
            cod.component_parameters.parameters.wf(),
            1 <= cod.num_layers <= MAX_LAYER_COUNT,
            forall|j: int|
                0 <= j < tile.component_infos@.len() ==> (#[trigger] tile.component_infos@[j]).usable()
                    && tile.component_infos@[j].size_info == header.component_infos@[j].size_info,
            forall|j: int| 0 <= j < i ==> (#[trigger] tile.component_infos@[j]).coding_style.same(&cod.component_parameters),
        decreases tile.component_infos@.len() - i,
    {
        tile.component_infos[i].coding_style = cod.component_parameters.duplicate();
        i = i + 1;
    }
}

/// Override the quantization of all components of a tile with a QCD marker
/// of its first tile-part header.
fn apply_tile_qcd<'a>(tile: &mut Tile<'a>, qcd: &crate::j2c::codestream::QuantizationInfo, header: &Header)
    requires
        old(tile).wf(header),
    ensures
        final(tile).wf(header),
        final(tile).idx == old(tile).idx,
        final(tile).tile_parts@ == old(tile).tile_parts@,
        forall|i: int|
            0 <= i < final(tile).component_infos@.len() ==> (#[trigger] final(tile).component_infos@[i]).quantization_info.same(qcd),
{
    let mut i: usize = 0;
    while i < tile.component_infos.len()
        invariant
            i <= tile.component_infos@.len(),
            tile.component_infos@.len() == header.component_infos@.len(),
            tile.rect == old(tile).rect,
            tile.idx == old(tile).idx,
            tile.tile_parts@ == old(tile).tile_parts@,
            tile.num_layers == old(tile).num_layers,
            old(tile).wf(header),
            forall|j: int|
                0 <= j < tile.component_infos@.len() ==> (#[trigger] tile.component_infos@[j]).usable()
                    && tile.component_infos@[j].size_info == header.component_infos@[j].size_info,
            forall|j: int| 0 <= j < i ==> (#[trigger] tile.component_infos@[j]).quantization_info.same(qcd),
        decreases tile.component_infos@.len() - i,
    {
        tile.component_infos[i].quantization_info = qcd.duplicate();
        i = i + 1;
    }
}

/// All tiles have the properties of `Tile::wf` and sit at their own index.
pub open spec fn tiles_wf(tiles: Seq<Tile>, header: &Header) -> bool {
    forall|i: int| 0 <= i < tiles.len() ==> (#[trigger] tiles[i]).wf(header) && tiles[i].idx == i
}

/// At byte `p` of `b` starts a tile-part whose header is its SOT marker
/// segment alone, followed at once by an SOD marker, and whose length is
/// zero (it holds the rest of the data) or lies within the data.
pub open spec fn plain_tile_part_at(b: Seq<u8>, p: int) -> bool {
    &&& 0 <= p
    &&& p + 14 <= b.len()
    &&& b[p] == 0xff
    &&& b[p + 1] == markers::SOT
    &&& b[p + 12] == 0xff
    &&& b[p + 13] == markers::SOD
    &&& u32_at(b, p + 6) == 0 || (14 <= u32_at(b, p + 6) && p + u32_at(b, p + 6) <= b.len())
}

/// Where the tile-part at byte `p` of `b` ends: after its tile-part length,
/// or at the end of the data for a length of zero.
pub open spec fn tile_part_end(b: Seq<u8>, p: int) -> int {
    if u32_at(b, p + 6) == 0 {
        b.len() as int
    } else {
        p + u32_at(b, p + 6)
    }
}

/// No SOT marker starts at byte `e` of `b`.
pub open spec fn no_sot_at(b: Seq<u8>, e: int) -> bool {
    !(e + 2 <= b.len() && b[e] == 0xff && b[e + 1] == markers::SOT)
}

/// The tile `t` is `t0` with possibly more tile-parts: all else is the same.
pub open spec fn same_but_parts(t: Tile, t0: Tile) -> bool {
    &&& t.idx == t0.idx
    &&& t.rect == t0.rect
    &&& t.component_infos@ == t0.component_infos@
    &&& t.progression_order == t0.progression_order
    &&& t.mct == t0.mct
    &&& t.num_layers == t0.num_layers
}

/// Reading the tile-part at byte `p` of `b` took the reader to `r` and the
/// tiles from `t0` to `t`: only the tile of the tile-part index changed
/// (its coding parameters only if it had no tile-part yet); it gained a
/// tile-part, or none when its header ended without a marker or ran past
/// the tile-part length (the PPM packet for it is then used up all the
/// same). A tile-part gained holds the bytes from the
/// SOD (or EOC) marker that ends its header to the end of the tile-part
/// (the end of the data for a tile-part length of zero), where the reader
/// stops, and the packed packet headers of PPM marker `k` where the main
/// header has `n_ppm > 0` PPM packets.
pub open spec fn tile_part_read(
    b: Seq<u8>,
    p: int,
    r: BitReader,
    t0: Seq<Tile>,
    t: Seq<Tile>,
    n_ppm: int,
    ppm_k: Option<Seq<u8>>,
    k0: int,
    k1: int,
) -> bool {
    let idx = u16_at(b, p + 4);
    let psot = u32_at(b, p + 6);
    let end = if psot == 0 { b.len() as int } else { p + psot };
    let before = t0[idx].tile_parts@;
    let after = t[idx].tile_parts@;
    let q = r.spec_byte_pos();
    &&& 0 <= idx < t0.len()
    &&& t.len() == t0.len()
    &&& forall|j: int| 0 <= j < t0.len() && j != idx ==> #[trigger] t[j] == t0[j]
    &&& before.len() > 0 ==> same_but_parts(t[idx], t0[idx])
    &&& {
        ||| after == before && k1 == k0 && !(has_bytes(r, 2) && b[q] == 0xff)
        ||| after == before && q > end && (n_ppm > 0 ==> k1 == k0 + 1) && (n_ppm == 0 ==> k1 == k0)
        ||| after.len() == before.len() + 1 && after.subrange(0, before.len() as int) == before && {
            let part = after[before.len() as int];
            let d0 = end - part.data@.len();
            &&& q == end
            &&& p + 14 <= d0
            &&& part.data@ == b.subrange(d0, end)
            &&& b[d0 - 2] == 0xff
            &&& (b[d0 - 1] == markers::SOD || b[d0 - 1] == markers::EOC)
            &&& n_ppm > 0 ==> (ppm_k matches Some(h) && part.packed_headers matches Some(d) && d@ == h && k1 == k0 + 1)
            &&& n_ppm == 0 ==> k1 == k0
        }
    }
}

/// Parse one tile-part and add it to its tile. `ppm_index` counts the
/// tile-parts read so far, to find their packed packet headers in the main
/// header.
fn parse_tile_part<'a>(
    reader: &mut BitReader<'a>,
    main_header: &Header<'a>,
    tiles: &mut Vec<Tile<'a>>,
    ppm_index: &mut usize,
) -> (r: Result<()>)
    requires
        at_byte(*old(reader)),
        tiles_wf(old(tiles)@, main_header),
    ensures
        at_byte(*final(reader)),
        final(reader).bytes() == old(reader).bytes(),
        final(tiles)@.len() == old(tiles)@.len(),
        tiles_wf(final(tiles)@, main_header),
        r is Ok ==> final(reader).spec_byte_pos() > old(reader).spec_byte_pos(),
        ({
            let b = old(reader).bytes();
            let p = old(reader).spec_byte_pos();
            let sot = has_bytes(*old(reader), 2) && b[p] == 0xff && b[p + 1] == markers::SOT;
            &&& !(has_bytes(*old(reader), 2) && b[p] == 0xff) ==> r == Err::<(), DecodeError>(
                DecodeError::Marker(MarkerError::Invalid),
            )
            &&& has_bytes(*old(reader), 2) && b[p] == 0xff && b[p + 1] != markers::SOT ==> r == Err::<(), DecodeError>(
                DecodeError::Marker(MarkerError::Expected("SOT")),
            )
            &&& sot && p + 12 > b.len() ==> r == Err::<(), DecodeError>(DecodeError::Marker(MarkerError::ParseFailure("SOT")))
            &&& sot && p + 12 <= b.len() && u16_at(b, p + 4) >= old(tiles)@.len() ==> r == Err::<(), DecodeError>(
                DecodeError::Tile(TileError::InvalidIndex),
            )
            &&& sot && p + 12 <= b.len() && u16_at(b, p + 4) < old(tiles)@.len() && u32_at(b, p + 6) != 0 && u32_at(
                b,
                p + 6,
            ) < 12 ==> r == Err::<(), DecodeError>(DecodeError::Tile(TileError::Invalid))
        }),
        ({
            let b = old(reader).bytes();
            let p = old(reader).spec_byte_pos();
            let idx = u16_at(b, p + 4);
            plain_tile_part_at(b, p) && idx < old(tiles)@.len() && main_header.ppm_packets@.len() == 0 ==> {
                &&& r is Ok
                &&& final(reader).spec_byte_pos() == tile_part_end(b, p)
                &&& *final(ppm_index) == *old(ppm_index)
                &&& forall|j: int| 0 <= j < old(tiles)@.len() && j != idx ==> #[trigger] final(tiles)@[j] == old(tiles)@[j]
                &&& final(tiles)@[idx].tile_parts@.len() == old(tiles)@[idx].tile_parts@.len() + 1
                &&& forall|k: int|
                    0 <= k < old(tiles)@[idx].tile_parts@.len() ==> #[trigger] final(tiles)@[idx].tile_parts@[k]
                        == old(tiles)@[idx].tile_parts@[k]
                &&& final(tiles)@[idx].tile_parts@[old(tiles)@[idx].tile_parts@.len() as int].data@ == b.subrange(
                    p + 14,
                    tile_part_end(b, p),
                )
                &&& final(tiles)@[idx].tile_parts@[old(tiles)@[idx].tile_parts@.len() as int].packed_headers is None
            }
        }),
        r is Ok ==> tile_part_read(
            old(reader).bytes(),
            old(reader).spec_byte_pos(),
            *final(reader),
            old(tiles)@,
            final(tiles)@,
            main_header.ppm_packets@.len() as int,
            if *old(ppm_index) < main_header.ppm_packets@.len() {
                Some(main_header.ppm_packets@[*old(ppm_index) as int].data@)
            } else {
                None
            },
            *old(ppm_index) as int,
            *final(ppm_index) as int,
        ),
{
    let ghost p0 = reader.spec_byte_pos();
    let ghost b = reader.bytes();
    let ghost quick = plain_tile_part_at(b, p0) && u16_at(b, p0 + 4) < tiles@.len() && main_header.ppm_packets@.len() == 0;
    let marker = match reader.read_marker() {
        Ok(m) => m,
        Err(e) => return Err(e),
    };
    if marker != markers::SOT {
        return Err(DecodeError::Marker(MarkerError::Expected("SOT")));
    }
    let tile_part_header = match sot_marker(reader) {
        Some(h) => h,
        None => return Err(DecodeError::Marker(MarkerError::ParseFailure("SOT"))),
    };
    if tile_part_header.tile_index as usize >= tiles.len() {
        return Err(DecodeError::Tile(TileError::InvalidIndex));
    }
    let data_len: usize = if tile_part_header.tile_part_length == 0 {
        match reader.tail() {
            Some(d) => d.len(),
            None => 0,
        }
    } else {
        // Subtract 12 to account for the marker length.
        match (tile_part_header.tile_part_length as usize).checked_sub(12) {
            Some(l) => l,
            None => return Err(DecodeError::Tile(TileError::Invalid)),
        }
    };
    let start = reader.offset();
    let idx = tile_part_header.tile_index as usize;
    let first = tiles[idx].tile_parts.len() == 0;
    let num_components = tiles[idx].component_infos.len();
    let mut ppt: Option<&'a [u8]> = None;
    proof {
        if quick {
            assert(idx == u16_at(b, p0 + 4));
            assert(data_len == tile_part_end(b, p0) - start);
        }
    }

    loop
        invariant_except_break
            quick ==> reader.spec_byte_pos() == start && tiles@ == old(tiles)@ && ppt is None,
        invariant
            at_byte(*reader),
            b == old(reader).bytes(),
            p0 == old(reader).spec_byte_pos(),
            quick == (plain_tile_part_at(b, p0) && u16_at(b, p0 + 4) < old(tiles)@.len() && main_header.ppm_packets@.len()
                == 0),
            quick ==> idx == u16_at(b, p0 + 4) && data_len == tile_part_end(b, p0) - start,
            idx == u16_at(b, p0 + 4),
            data_len == (if u32_at(b, p0 + 6) == 0 { b.len() - start } else { u32_at(b, p0 + 6) - 12 }),
            first == (old(tiles)@[idx as int].tile_parts@.len() == 0),
            forall|j: int| 0 <= j < old(tiles)@.len() && j != idx ==> #[trigger] tiles@[j] == old(tiles)@[j],
            tiles@[idx as int].tile_parts@ == old(tiles)@[idx as int].tile_parts@,
            !first ==> tiles@[idx as int] == old(tiles)@[idx as int],
            *ppm_index == *old(ppm_index),
            p0 + 12 <= b.len(),
            b[p0] == 0xff,
            b[p0 + 1] == markers::SOT,
            u16_at(b, p0 + 4) < old(tiles)@.len(),
            u32_at(b, p0 + 6) == 0 || u32_at(b, p0 + 6) >= 12,
            reader.bytes() == old(reader).bytes(),
            reader.spec_byte_pos() >= start,
            start > p0,
            start == old(reader).spec_byte_pos() + 12,
            idx < tiles@.len(),
            tiles@.len() == old(tiles)@.len(),
            tiles_wf(tiles@, main_header),
            num_components == tiles@[idx as int].component_infos@.len(),
            num_components == main_header.component_infos@.len(),
        ensures
            quick ==> reader.spec_byte_pos() == start + 2 && tiles@ == old(tiles)@ && ppt is None,
            reader.spec_byte_pos() >= start + 2,
            b[reader.spec_byte_pos() - 2] == 0xff,
            b[reader.spec_byte_pos() - 1] == markers::SOD || b[reader.spec_byte_pos() - 1] == markers::EOC,
        decreases reader.bytes().len() - reader.spec_byte_pos(),
    {
        let marker = match reader.peek_marker() {
            Some(m) => m,
            // No marker in the tile-part header: the tile-part is
            // ignored.
            None => return Ok(()),
        };
        let _ = reader.read_marker();
        if marker == markers::SOD {
            break;
        } else if marker == markers::EOC {
            break;
        } else if marker == markers::COD {
            // COD, COC, QCD and QCC should only be used in the _first_
            // tile-part header, if they appear at all.
            let cod = match cod_marker(reader) {
                Some(c) => c,
                None => return Err(DecodeError::Marker(MarkerError::ParseFailure("COD"))),
            };
            if first {
                apply_tile_cod(&mut tiles[idx], &cod, main_header);
            }
        } else if marker == markers::COC {
            let (component_index, coc) = match coc_marker(reader, num_components as u16) {
                Some(c) => c,
                None => return Err(DecodeError::Marker(MarkerError::ParseFailure("COC"))),
            };
            if first {
                if (component_index as usize) < num_components {
                    tiles[idx].component_infos[component_index as usize].coding_style = coc;
                } else {
                    return Err(DecodeError::Tile(TileError::InvalidIndex));
                }
            }
        } else if marker == markers::QCD {
            let qcd = match qcd_marker(reader) {
                Some(q) => q,
                None => return Err(DecodeError::Marker(MarkerError::ParseFailure("QCD"))),
            };
            if first {
                apply_tile_qcd(&mut tiles[idx], &qcd, main_header);
            }
        } else if marker == markers::QCC {
            let (component_index, qcc) = match qcc_marker(reader, num_components as u16) {
                Some(c) => c,
                None => return Err(DecodeError::Marker(MarkerError::ParseFailure("QCC"))),
            };
            if first {
                if (component_index as usize) < num_components {
                    tiles[idx].component_infos[component_index as usize].quantization_info = qcc;
                } else {
                    return Err(DecodeError::Tile(TileError::InvalidIndex));
                }
            }
        } else if marker == markers::PPT {
            if main_header.ppm_packets.len() > 0 {
                return Err(DecodeError::Tile(TileError::PpmPptConflict));
            }
            let data = match ppt_marker(reader) {
                Some(d) => d,
                None => return Err(DecodeError::Marker(MarkerError::ParseFailure("PPT"))),
            };
            if ppt.is_some() {
                // Packed packet headers split over several PPT markers are
                // not supported.
                return Err(DecodeError::Marker(MarkerError::Unsupported));
            }
            ppt = Some(data);
        } else {
            if skip_marker_segment(reader).is_none() {
                return Err(DecodeError::Marker(MarkerError::Invalid));
            }
        }
    }

    let packed_headers = if main_header.ppm_packets.len() > 0 {
        if *ppm_index < main_header.ppm_packets.len() {
            let d = main_header.ppm_packets[*ppm_index].data;
            *ppm_index = *ppm_index + 1;
            Some(d)
        } else {
            return Err(DecodeError::Marker(MarkerError::Missing("PPM")));
        }
    } else {
        ppt
    };

    let ghost q_header = reader.spec_byte_pos();
    let consumed = reader.offset() - start;
    let remaining_bytes = if data_len >= consumed {
        data_len - consumed
    } else {
        // Not enough data in the tile part: it is ignored.
        return Ok(());
    };
    let data = match reader.read_bytes(remaining_bytes) {
        Some(d) => d,
        None => return Err(DecodeError::Decoding(DecodingError::UnexpectedEof)),
    };
    let ghost t_before = tiles@;
    tiles[idx].tile_parts.push(TilePart { data, packed_headers });
    proof {
        let before = old(tiles)@[idx as int].tile_parts@;
        assert(tiles@[idx as int].tile_parts@ == before.push(TilePart { data, packed_headers }));
        assert(tiles@[idx as int].tile_parts@.subrange(0, before.len() as int) =~= before);
        assert(reader.spec_byte_pos() == q_header + remaining_bytes);
    }
    Ok(())
}

/// The packed packet headers of PPM packet `k`, where there is one.
pub open spec fn ppm_packet_at(ppm: Seq<crate::j2c::codestream::PpmPacket>, k: int) -> Option<Seq<u8>> {
    if 0 <= k < ppm.len() {
        Some(ppm[k].data@)
    } else {
        None
    }
}

/// Where tile-part `i` of a walk that starts at byte `p` starts: at `p`,
/// or where the reading of the tile-part before it stopped.
pub open spec fn walk_start(readers: Seq<BitReader>, p: int, i: int) -> int {
    if i == 0 {
        p
    } else {
        readers[i - 1].spec_byte_pos()
    }
}

/// The tile-parts from byte `p` of `b` on were read one after the other:
/// tile-part `i` took the reader to `readers[i]`, the tiles from `ts[i]`
/// to `ts[i + 1]` and the PPM index from `ks[i]` to `ks[i + 1]`, each as
/// `tile_part_read` says, and each tile-part but the first starts with an
/// SOT marker.
pub open spec fn tile_parts_walk(
    b: Seq<u8>,
    p: int,
    readers: Seq<BitReader>,
    ts: Seq<Seq<Tile>>,
    ks: Seq<int>,
    ppm: Seq<crate::j2c::codestream::PpmPacket>,
) -> bool {
    &&& ts.len() == readers.len() + 1
    &&& ks.len() == readers.len() + 1
    &&& forall|i: int|
        0 <= i < readers.len() ==> tile_part_read(
            b,
            walk_start(readers, p, i),
            #[trigger] readers[i],
            ts[i],
            ts[i + 1],
            ppm.len() as int,
            ppm_packet_at(ppm, ks[i]),
            ks[i],
            ks[i + 1],
        )
    &&& forall|i: int| 1 <= i < readers.len() ==> !no_sot_at(b, #[trigger] walk_start(readers, p, i))
}

/// Reading one more tile-part, which starts with an SOT marker where the
/// walk stopped, extends the walk.
#[verifier::rlimit(100)]
#[verifier::spinoff_prover]
proof fn lemma_walk_push(
    b: Seq<u8>,
    p: int,
    readers: Seq<BitReader>,
    ts: Seq<Seq<Tile>>,
    ks: Seq<int>,
    ppm: Seq<crate::j2c::codestream::PpmPacket>,
    r: BitReader,
    t: Seq<Tile>,
    k: int,
)
    requires
        tile_parts_walk(b, p, readers, ts, ks, ppm),
        readers.len() >= 1,
        !no_sot_at(b, readers.last().spec_byte_pos()),
        tile_part_read(
            b,
            readers.last().spec_byte_pos(),
            r,
            ts.last(),
            t,
            ppm.len() as int,
            ppm_packet_at(ppm, ks.last()),
            ks.last(),
            k,
        ),
    ensures
        tile_parts_walk(b, p, readers.push(r), ts.push(t), ks.push(k), ppm),
{
    let r2 = readers.push(r);
    let t2 = ts.push(t);
    let k2 = ks.push(k);
    let m = readers.len() as int;
    assert(walk_start(r2, p, m) == readers.last().spec_byte_pos());
    assert forall|i: int| 0 <= i < r2.len() implies tile_part_read(
        b,
        walk_start(r2, p, i),
        #[trigger] r2[i],
        t2[i],
        t2[i + 1],
        ppm.len() as int,
        ppm_packet_at(ppm, k2[i]),
        k2[i],
        k2[i + 1],
    ) by {
        if i < m {
            assert(r2[i] == readers[i]);
            assert(walk_start(r2, p, i) == walk_start(readers, p, i));
            assert(tile_part_read(
                b,
                walk_start(readers, p, i),
                readers[i],
                ts[i],
                ts[i + 1],
                ppm.len() as int,
                ppm_packet_at(ppm, ks[i]),
                ks[i],
                ks[i + 1],
            ));
        }
    }
    assert forall|i: int| 1 <= i < r2.len() implies !no_sot_at(b, #[trigger] walk_start(r2, p, i)) by {
        if i < m {
            assert(walk_start(r2, p, i) == walk_start(readers, p, i));
        }
    }
}

/// From byte `p` of `b` on stand tile-parts that are plain (their header
/// holds no marker segment) with a tile index below `n`, one after the
/// other, up to one after which no SOT marker follows.
pub open spec fn plain_parts_from(b: Seq<u8>, p: int, n: int) -> bool
    decreases b.len() - p,
{
    if plain_tile_part_at(b, p) && u16_at(b, p + 4) < n {
        no_sot_at(b, tile_part_end(b, p)) || plain_parts_from(b, tile_part_end(b, p), n)
    } else {
        false
    }
}

/// The tiles as `Tile::new` makes them for a header: each at its index,
/// with the rectangle of that index, the parameters of the main header
/// and no tile-part.
pub open spec fn fresh_tiles(ts: Seq<Tile>, header: &Header) -> bool {
    forall|i: int|
        0 <= i < ts.len() ==> {
            &&& (#[trigger] ts[i]).idx == i
            &&& ts[i].tile_parts@.len() == 0
            &&& ts[i].rect == tile_rect_spec(&header.size_data, i)
            &&& ts[i].component_infos@.len() == header.component_infos@.len()
            &&& forall|c: int| 0 <= c < ts[i].component_infos@.len() ==> (#[trigger] ts[i].component_infos@[c]).same(
                &header.component_infos@[c],
            )
            &&& ts[i].progression_order == header.global_coding_style.progression_order
            &&& ts[i].mct == header.global_coding_style.mct
            &&& ts[i].num_layers == header.global_coding_style.num_layers
        }
}

/// Create the tiles and parse their constituent tile parts.
#[verifier::rlimit(60)]
#[verifier::spinoff_prover]
pub fn parse<'a>(reader: &mut BitReader<'a>, main_header: &Header<'a>) -> (r: Result<Vec<Tile<'a>>>)
    requires
        at_byte(*old(reader)),
        main_header.wf(),
    ensures
        at_byte(*final(reader)),
        final(reader).bytes() == old(reader).bytes(),
        main_header.size_data.spec_num_x_tiles() * main_header.size_data.spec_num_y_tiles() > u32::MAX ==> r
            == Err::<Vec<Tile<'a>>, DecodeError>(DecodeError::Tile(TileError::Invalid)),
        r matches Ok(tiles) ==> {
            &&& tiles@.len() == main_header.size_data.spec_num_x_tiles() * main_header.size_data.spec_num_y_tiles()
            &&& tiles_wf(tiles@, main_header)
        },
        r matches Ok(tiles) ==> exists|readers: Seq<BitReader>, ts: Seq<Seq<Tile>>, ks: Seq<int>|
            #[trigger] tile_parts_walk(old(reader).bytes(), old(reader).spec_byte_pos(), readers, ts, ks, main_header.ppm_packets@)
                && readers.len() >= 1 && fresh_tiles(ts[0], main_header) && ks[0] == 0 && ts.last() == tiles@
                && readers.last() == *final(reader) && no_sot_at(old(reader).bytes(), final(reader).spec_byte_pos()),
        ({
            let b = old(reader).bytes();
            let p = old(reader).spec_byte_pos();
            let n = main_header.size_data.spec_num_x_tiles() * main_header.size_data.spec_num_y_tiles();
            let sot = has_bytes(*old(reader), 2) && b[p] == 0xff && b[p + 1] == markers::SOT;
            n <= u32::MAX ==> {
                &&& !(has_bytes(*old(reader), 2) && b[p] == 0xff) ==> r == Err::<Vec<Tile<'a>>, DecodeError>(
                    DecodeError::Marker(MarkerError::Invalid),
                )
                &&& has_bytes(*old(reader), 2) && b[p] == 0xff && b[p + 1] != markers::SOT ==> r == Err::<
                    Vec<Tile<'a>>,
                    DecodeError,
                >(DecodeError::Marker(MarkerError::Expected("SOT")))
                &&& sot && p + 12 > b.len() ==> r == Err::<Vec<Tile<'a>>, DecodeError>(
                    DecodeError::Marker(MarkerError::ParseFailure("SOT")),
                )
                &&& sot && p + 12 <= b.len() && u16_at(b, p + 4) >= n ==> r == Err::<Vec<Tile<'a>>, DecodeError>(
                    DecodeError::Tile(TileError::InvalidIndex),
                )
                &&& sot && p + 12 <= b.len() && u16_at(b, p + 4) < n && u32_at(b, p + 6) != 0 && u32_at(b, p + 6) < 12
                    ==> r == Err::<Vec<Tile<'a>>, DecodeError>(DecodeError::Tile(TileError::Invalid))
            }
        }),
        ({
            let b = old(reader).bytes();
            let p = old(reader).spec_byte_pos();
            let n = main_header.size_data.spec_num_x_tiles() * main_header.size_data.spec_num_y_tiles();
            n <= u32::MAX && main_header.ppm_packets@.len() == 0 && plain_parts_from(b, p, n) ==> r is Ok
        }),
        ({
            let b = old(reader).bytes();
            let p = old(reader).spec_byte_pos();
            let n = main_header.size_data.spec_num_x_tiles() * main_header.size_data.spec_num_y_tiles();
            let idx = u16_at(b, p + 4);
            n <= u32::MAX && plain_tile_part_at(b, p) && no_sot_at(b, tile_part_end(b, p)) && idx < n
                && main_header.ppm_packets@.len() == 0 ==> (r matches Ok(
                tiles,
            ) && {
                &&& forall|j: int| 0 <= j < n && j != idx ==> (#[trigger] tiles@[j]).tile_parts@.len() == 0
                &&& tiles@[idx].tile_parts@.len() == 1
                &&& tiles@[idx].tile_parts@[0].data@ == b.subrange(p + 14, tile_part_end(b, p))
                &&& tiles@[idx].tile_parts@[0].packed_headers is None
            })
        }),
{
    let size_data = &main_header.size_data;
    let nx = size_data.num_x_tiles() as u64;
    let ny = size_data.num_y_tiles() as u64;
    assert(nx * ny <= 0xffff_ffff * 0xffff_ffff) by (nonlinear_arith)
        requires nx <= 0xffff_ffff, ny <= 0xffff_ffff;
    if nx * ny > u32::MAX as u64 {
        return Err(DecodeError::Tile(TileError::Invalid));
    }
    let num_tiles = (nx * ny) as u32;
    let mut tiles: Vec<Tile<'a>> = Vec::new();
    let mut i: u32 = 0;
    while i < num_tiles
        invariant
            i <= num_tiles,
            num_tiles == size_data.spec_num_x_tiles() * size_data.spec_num_y_tiles(),
            main_header.wf(),
            size_data == &main_header.size_data,
            tiles@.len() == i,
            tiles_wf(tiles@, main_header),
            forall|j: int| 0 <= j < i ==> (#[trigger] tiles@[j]).tile_parts@.len() == 0,
            fresh_tiles(tiles@, main_header),
        decreases num_tiles - i,
    {
        let t = Tile::new(i, main_header);
        proof {
            assert forall|c: int| 0 <= c < t.component_infos@.len() implies (#[trigger] t.component_infos@[c]).usable()
                && t.component_infos@[c].size_info == main_header.component_infos@[c].size_info by {
                assert(main_header.component_infos@[c].wf());
            }
        }
        tiles.push(t);
        i = i + 1;
    }

    let mut ppm_index: usize = 0;
    let ghost b = reader.bytes();
    let ghost p = reader.spec_byte_pos();
    let ghost ts0 = tiles@;
    let ghost ppm = main_header.ppm_packets@;
    let ghost quick = plain_tile_part_at(b, p) && no_sot_at(b, tile_part_end(b, p)) && u16_at(b, p + 4) < num_tiles
        && main_header.ppm_packets@.len() == 0;
    let ghost chain = main_header.ppm_packets@.len() == 0 && plain_parts_from(b, p, num_tiles as int);
    match parse_tile_part(reader, main_header, &mut tiles, &mut ppm_index) {
        Ok(()) => {},
        Err(e) => return Err(e),
    }
    let ghost after_first = tiles;
    let ghost mut readers: Seq<BitReader> = seq![*reader];
    let ghost mut ts: Seq<Seq<Tile>> = seq![ts0, tiles@];
    let ghost mut ks: Seq<int> = seq![0int, ppm_index as int];
    proof {
        if quick {
            assert(no_sot_at(b, reader.spec_byte_pos()));
        }
        if chain {
            assert(reader.spec_byte_pos() == tile_part_end(b, p));
        }
        assert(walk_start(readers, p, 0) == p);
        assert(tile_parts_walk(b, p, readers, ts, ks, ppm));
    }
    while reader.peek_marker() == Some(markers::SOT)
        invariant
            at_byte(*reader),
            reader.bytes() == old(reader).bytes(),
            tiles@.len() == num_tiles,
            size_data == &main_header.size_data,
            num_tiles == size_data.spec_num_x_tiles() * size_data.spec_num_y_tiles(),
            tiles_wf(tiles@, main_header),
            quick ==> no_sot_at(b, reader.spec_byte_pos()) && tiles == after_first,
            chain == (main_header.ppm_packets@.len() == 0 && plain_parts_from(b, p, num_tiles as int)),
            chain ==> no_sot_at(b, reader.spec_byte_pos()) || plain_parts_from(b, reader.spec_byte_pos(), num_tiles as int),
            b == old(reader).bytes(),
            p == old(reader).spec_byte_pos(),
            quick == (plain_tile_part_at(b, p) && no_sot_at(b, tile_part_end(b, p)) && u16_at(b, p + 4) < num_tiles
                && main_header.ppm_packets@.len() == 0),
            p + 12 <= b.len(),
            b[p] == 0xff,
            b[p + 1] == markers::SOT,
            u16_at(b, p + 4) < num_tiles,
            u32_at(b, p + 6) == 0 || u32_at(b, p + 6) >= 12,
            ppm == main_header.ppm_packets@,
            fresh_tiles(ts0, main_header),
            tile_parts_walk(b, p, readers, ts, ks, ppm),
            readers.len() >= 1,
            ts[0] == ts0,
            ks[0] == 0,
            ts.last() == tiles@,
            ks.last() == ppm_index as int,
            readers.last() == *reader,
        decreases reader.bytes().len() - reader.spec_byte_pos(),
    {
        let ghost here = reader.spec_byte_pos();
        match parse_tile_part(reader, main_header, &mut tiles, &mut ppm_index) {
            Ok(()) => {},
            Err(e) => {
                proof {
                    if chain {
                        assert(plain_parts_from(b, here, num_tiles as int));
                    }
                }
                return Err(e);
            },
        }
        proof {
            if chain {
                assert(plain_parts_from(b, here, num_tiles as int));
                assert(reader.spec_byte_pos() == tile_part_end(b, here));
            }
            lemma_walk_push(b, p, readers, ts, ks, ppm, *reader, tiles@, ppm_index as int);
            readers = readers.push(*reader);
            ts = ts.push(tiles@);
            ks = ks.push(ppm_index as int);
        }
    }
    proof {
        assert(no_sot_at(b, reader.spec_byte_pos()));
    }
    Ok(tiles)
}

} // verus!
