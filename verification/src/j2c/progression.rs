//! Progression iterators, defined in Section B.12.
//!
//! A progression yields tuples of (`layer_num`, resolution, component,
//! precinct) in a specific order that determines in which order the data
//! appears in the codestream.
//!
//! Each progression is a state machine whose `next` yields the least valid
//! packet at or after its current position, where packets are ordered by a
//! key that encodes the order of the progression as a number.
use crate::j2c::tile::{ComponentTile, ResolutionTile, Tile, resolution_tile_spec};
use vstd::prelude::*;

verus! {

/// One packet of the progression.
#[derive(Copy, Clone, Debug, PartialEq, Eq, Structural)]
pub struct ProgressionData {
    pub layer_num: u8,
    pub resolution: u8,
    pub component: u8,
    pub precinct: u64,
}

/// `2^64`, the radix of the precinct index in a key.
pub open spec fn radix64() -> int {
    0x1_0000_0000_0000_0000
}

/// The key of four numbers compared lexicographically, the first three
/// below 256 and the last below `2^64`.
pub open spec fn key4(a: int, b: int, c: int, d: int) -> int {
    ((a * 256 + b) * 256 + c) * radix64() + d
}

/// A key above the key of every packet.
pub open spec fn key4_end() -> int {
    256 * 256 * 256 * radix64()
}

/// Keys of four numbers compare as the numbers compare lexicographically.
pub proof fn lemma_key4(a: (int, int, int, int), b: (int, int, int, int))
    requires
        0 <= a.0 < 256, 0 <= a.1 < 256, 0 <= a.2 < 256, 0 <= a.3 < radix64(),
        0 <= b.0 < 256, 0 <= b.1 < 256, 0 <= b.2 < 256, 0 <= b.3 < radix64(),
    ensures
        (key4(a.0, a.1, a.2, a.3) < key4(b.0, b.1, b.2, b.3)) == (a.0 < b.0 || (a.0 == b.0 && (a.1 < b.1
            || (a.1 == b.1 && (a.2 < b.2 || (a.2 == b.2 && a.3 < b.3)))))),
        (key4(a.0, a.1, a.2, a.3) == key4(b.0, b.1, b.2, b.3)) == (a == b),
        0 <= key4(a.0, a.1, a.2, a.3) < key4_end(),
{
}

/// The largest number of resolution levels among the components.
pub open spec fn max_resolution_levels(infos: Seq<crate::j2c::codestream::ComponentInfo>) -> u8
    decreases infos.len(),
{
    if infos.len() == 0 {
        0
    } else {
        let m = max_resolution_levels(infos.drop_last());
        let l = infos.last().spec_num_resolution_levels();
        if l > m { l } else { m }
    }
}

/// The smaller of two bounds.
pub open spec fn min_u8(a: u8, b: u8) -> u8 {
    if a <= b { a } else { b }
}

/// The bounds of a progression: the half-open ranges of layers, resolutions
/// and components to iterate over.
pub struct IteratorInput<'a> {
    pub layers: (u8, u8),
    pub tile: &'a Tile<'a>,
    pub resolutions: (u8, u8),
    pub components: (u8, u8),
}

impl<'a> IteratorInput<'a> {
    /// The tile has the properties that parsing gives it, and the ranges
    /// are non-empty and lie within the tile.
    pub open spec fn wf(&self) -> bool {
        &&& self.tile.rect.wf()
        &&& forall|i: int|
            0 <= i < self.tile.component_infos@.len() ==> (#[trigger] self.tile.component_infos@[i]).usable()
        &&& self.layers.0 < self.layers.1
        &&& self.resolutions.0 < self.resolutions.1
        &&& self.resolutions.1 <= max_resolution_levels(self.tile.component_infos@)
        &&& self.components.0 < self.components.1
        &&& self.components.1 <= self.tile.component_infos@.len()
    }

    /// The number of resolution levels of component `c`.
    pub open spec fn levels(&self, c: int) -> int {
        self.tile.component_infos@[c].spec_num_resolution_levels() as int
    }

    /// The end of the resolutions of the layer-resolution progression: the
    /// resolution levels of the first component bound it too.
    pub open spec fn first_component_resolution_end(&self) -> int {
        let rmax = self.resolutions.1 as int;
        let l = self.levels(self.components.0 as int);
        if rmax <= l { rmax } else { l }
    }

    /// Every resolution tile that the layer-resolution progression visits
    /// exists: the resolution range is not empty, and every component in
    /// range, as well as the first component of the tile, has the
    /// resolution levels of the iteration.
    pub open spec fn layer_resolution_supported(&self) -> bool {
        &&& self.resolutions.0 < self.first_component_resolution_end()
        &&& self.levels(0) > self.resolutions.0
        &&& forall|c: int| self.components.0 <= c < self.components.1 ==> self.levels(c) >= self.first_component_resolution_end()
    }

    /// Every resolution tile that the resolution-layer progression visits
    /// exists: every component from the first to the end of the range has
    /// all resolution levels of the range.
    pub open spec fn resolution_layer_supported(&self) -> bool {
        forall|c: int| 0 <= c < self.components.1 ==> self.levels(c) >= self.resolutions.1
    }

    /// The component tiles are those of the tile.
    pub open spec fn tiles_of(&self, tiles: Seq<ComponentTile<'a>>) -> bool {
        &&& tiles.len() == self.tile.component_infos@.len()
        &&& forall|i: int|
            0 <= i < tiles.len() ==> (#[trigger] tiles[i]).tile == self.tile && tiles[i].component_info
                == &self.tile.component_infos@[i] && tiles[i].rect
                == crate::j2c::tile::component_rect_spec(self.tile.rect, self.tile.component_infos@[i].size_info)
                && tiles[i].wf()
    }

    /// The bounds of the whole tile.
    pub fn new(tile: &'a Tile<'a>) -> (r: Self)
        requires
            max_resolution_levels(tile.component_infos@) > 0,
            tile.num_layers > 0,
            tile.component_infos@.len() as u8 > 0,
        ensures
            r.tile == tile,
            r.layers == (0u8, tile.num_layers),
            r.resolutions == (0u8, max_resolution_levels(tile.component_infos@)),
            r.components == (0u8, tile.component_infos@.len() as u8),
    {
        Self::new_with_custom_bounds(
            tile,
            // Will be clamped automatically.
            (0, u8::MAX),
            (0, u8::MAX),
            (0, u8::MAX),
        )
    }

    /// The given bounds, with each upper bound clamped to what the tile
    /// has. Each clamped range must not be empty.
    pub fn new_with_custom_bounds(
        tile: &'a Tile<'a>,
        resolutions: (u8, u8),
        layers: (u8, u8),
        components: (u8, u8),
    ) -> (r: Self)
        requires
            min_u8(resolutions.1, max_resolution_levels(tile.component_infos@)) > resolutions.0,
            min_u8(layers.1, tile.num_layers) > layers.0,
            min_u8(components.1, tile.component_infos@.len() as u8) > components.0,
        ensures
            r.tile == tile,
            r.resolutions == (resolutions.0, min_u8(resolutions.1, max_resolution_levels(tile.component_infos@))),
            r.layers == (layers.0, min_u8(layers.1, tile.num_layers)),
            r.components == (components.0, min_u8(components.1, tile.component_infos@.len() as u8)),
    {
        let mut max_resolution: u8 = 0;
        let mut i: usize = 0;
        while i < tile.component_infos.len()
            invariant
                i <= tile.component_infos@.len(),
                max_resolution == max_resolution_levels(tile.component_infos@.subrange(0, i as int)),
            decreases tile.component_infos@.len() - i,
        {
            let l = tile.component_infos[i].coding_style.parameters.num_resolution_levels;
            proof {
                let s = tile.component_infos@.subrange(0, i + 1);
                assert(s.drop_last() =~= tile.component_infos@.subrange(0, i as int));
            }
            if l > max_resolution {
                max_resolution = l;
            }
            i = i + 1;
        }
        proof {
            assert(tile.component_infos@.subrange(0, i as int) =~= tile.component_infos@);
        }
        let max_layer = tile.num_layers;
        #[verifier::truncate]
        let max_component = tile.component_infos.len() as u8;

        // Make sure we don't exceed what's actually possible
        let r1 = if resolutions.1 <= max_resolution { resolutions.1 } else { max_resolution };
        let l1 = if layers.1 <= max_layer { layers.1 } else { max_layer };
        let c1 = if components.1 <= max_component { components.1 } else { max_component };

        IteratorInput { layers: (layers.0, l1), tile, resolutions: (resolutions.0, r1), components: (components.0, c1) }
    }

    pub fn min_layer(&self) -> (r: u8)
        ensures
            r == self.layers.0,
    {
        self.layers.0
    }

    pub fn max_layer(&self) -> (r: u8)
        ensures
            r == self.layers.1,
    {
        self.layers.1
    }

    pub fn min_resolution(&self) -> (r: u8)
        ensures
            r == self.resolutions.0,
    {
        self.resolutions.0
    }

    pub fn max_resolution(&self) -> (r: u8)
        ensures
            r == self.resolutions.1,
    {
        self.resolutions.1
    }

    pub fn min_comp(&self) -> (r: u8)
        ensures
            r == self.components.0,
    {
        self.components.0
    }

    pub fn max_comp(&self) -> (r: u8)
        ensures
            r == self.components.1,
    {
        self.components.1
    }

    /// The component tiles of the tile, one per component.
    pub fn component_tiles(&self) -> (r: Vec<ComponentTile<'a>>)
        requires
            self.wf(),
        ensures
            self.tiles_of(r@),
            r@ == self.tile.component_tiles_spec(),
    {
        self.tile.component_tiles()
    }

    /// Whether every component in `from..to` has at least `n` resolution
    /// levels.
    pub fn components_reach(&self, from: u8, to: u8, n: u8) -> (r: bool)
        requires
            to <= self.tile.component_infos@.len(),
        ensures
            r == (forall|c: int| from <= c < to ==> self.levels(c) >= n),
    {
        let mut c = from;
        while c < to
            invariant
                from <= c,
                to <= self.tile.component_infos@.len(),
                forall|k: int| from <= k < c ==> self.levels(k) >= n,
            decreases to - c,
        {
            if self.tile.component_infos[c as usize].coding_style.parameters.num_resolution_levels < n {
                assert(self.levels(c as int) < n);
                return false;
            }
            c = c + 1;
        }
        true
    }
}

/// B.12.1.1 Layer-resolution level-component-position progression: packets
/// ordered by layer, then resolution, then component, then precinct.
pub struct LayerResolutionComponentPosition<'a> {
    pub input: IteratorInput<'a>,
    pub component_tiles: Vec<ComponentTile<'a>>,
    pub layer: u8,
    pub resolution: u8,
    pub component_idx: u8,
    pub resolution_tile: ResolutionTile<'a>,
    pub precinct: u64,
}

impl<'a> LayerResolutionComponentPosition<'a> {
    /// The resolution tile whose precincts the packets of layer `l`,
    /// resolution `r` and component `c` count. The iteration starts with
    /// the tile of the first component, which the first packets count.
    pub open spec fn tile_at(&self, l: int, r: int, c: int) -> ResolutionTile<'a> {
        if l == self.input.layers.0 && r == self.input.resolutions.0 && c == self.input.components.0 {
            resolution_tile_spec(self.component_tiles@[0], r)
        } else {
            resolution_tile_spec(self.component_tiles@[c], r)
        }
    }

    /// The packets of the progression.
    pub open spec fn valid(&self, d: ProgressionData) -> bool {
        &&& self.input.layers.0 <= d.layer_num < self.input.layers.1
        &&& self.input.resolutions.0 <= d.resolution < self.input.first_component_resolution_end()
        &&& self.input.components.0 <= d.component < self.input.components.1
        &&& d.precinct < self.tile_at(d.layer_num as int, d.resolution as int, d.component as int).spec_num_precincts()
    }

    /// The order of the progression.
    pub open spec fn key(&self, d: ProgressionData) -> int {
        key4(d.layer_num as int, d.resolution as int, d.component as int, d.precinct as int)
    }

    /// The position of the iteration: the key of the next candidate.
    pub open spec fn pos(&self) -> int {
        key4(self.layer as int, self.resolution as int, self.component_idx as int, self.precinct as int)
    }

    /// No packet of the progression has a key in `from..to`.
    pub open spec fn none_within(&self, from: int, to: int) -> bool {
        forall|d: ProgressionData| #[trigger] self.valid(d) ==> !(from <= self.key(d) < to)
    }

    /// Two adjacent ranges without packets make one.
    pub proof fn lemma_none_within_join(&self, a: int, b: int, c: int)
        requires
            self.none_within(a, b),
            self.none_within(b, c),
        ensures
            self.none_within(a, c),
    {
    }

    /// Moving on from the exhausted row of packets `prev` (its precinct
    /// number is the count of the row) to the first packet of the next row
    /// skips no packet; past the last layer no packet remains.
    pub proof fn lemma_step(&self, prev: (int, int, int, int), next: (int, int, int, int))
        requires
            self.setup(),
            self.input.layers.0 <= prev.0 < self.input.layers.1,
            self.input.resolutions.0 <= prev.1 < self.input.first_component_resolution_end(),
            self.input.components.0 <= prev.2 < self.input.components.1,
            prev.3 == self.tile_at(prev.0, prev.1, prev.2).spec_num_precincts(),
            0 <= prev.3 < radix64(),
            next.3 == 0,
            (prev.2 + 1 < self.input.components.1 && next == (prev.0, prev.1, prev.2 + 1, 0int))
                || (prev.2 + 1 == self.input.components.1 && prev.1 + 1 < self.input.first_component_resolution_end()
                && next == (prev.0, prev.1 + 1, self.input.components.0 as int, 0int))
                || (prev.2 + 1 == self.input.components.1 && prev.1 + 1 == self.input.first_component_resolution_end()
                && next == (prev.0 + 1, self.input.resolutions.0 as int, self.input.components.0 as int, 0int)),
        ensures
            key4(prev.0, prev.1, prev.2, prev.3) < key4(next.0, next.1, next.2, next.3),
            self.none_within(key4(prev.0, prev.1, prev.2, prev.3), key4(next.0, next.1, next.2, next.3)),
            next.0 == self.input.layers.1 ==> self.none_within(key4(prev.0, prev.1, prev.2, prev.3), key4_end()),
    {
        lemma_key4(prev, next);
        assert forall|d: ProgressionData| #[trigger] self.valid(d) implies !(key4(prev.0, prev.1, prev.2, prev.3)
            <= self.key(d) < key4(next.0, next.1, next.2, next.3)) by {
            let t = (d.layer_num as int, d.resolution as int, d.component as int, d.precinct as int);
            lemma_key4(t, prev);
            lemma_key4(t, next);
        }
        if next.0 == self.input.layers.1 {
            assert forall|d: ProgressionData| #[trigger] self.valid(d) implies !(key4(prev.0, prev.1, prev.2, prev.3)
                <= self.key(d) < key4_end()) by {
                let t = (d.layer_num as int, d.resolution as int, d.component as int, d.precinct as int);
                lemma_key4(t, next);
            }
        }
    }

    /// The bounds are those of a tile for which every resolution tile of
    /// the iteration exists.
    pub open spec fn setup(&self) -> bool {
        &&& self.input.wf()
        &&& self.input.tiles_of(self.component_tiles@)
        &&& self.input.resolutions.0 < self.input.first_component_resolution_end()
        &&& self.input.levels(0) > self.input.resolutions.0
        &&& forall|c: int|
            self.input.components.0 <= c < self.input.components.1 ==> self.input.levels(c)
                >= self.input.first_component_resolution_end()
    }

    pub open spec fn wf(&self) -> bool {
        &&& self.setup()
        &&& self.input.layers.0 <= self.layer <= self.input.layers.1
        &&& self.layer < self.input.layers.1 ==> {
            &&& self.input.resolutions.0 <= self.resolution < self.input.first_component_resolution_end()
            &&& self.input.components.0 <= self.component_idx < self.input.components.1
            &&& self.resolution_tile == self.tile_at(self.layer as int, self.resolution as int, self.component_idx as int)
            &&& self.resolution_tile.wf()
            &&& self.precinct <= self.resolution_tile.spec_num_precincts()
        }
    }

    /// The least packet at or after the position, if any, after which the
    /// position moves past it.
    pub fn next(&mut self) -> (r: Option<ProgressionData>)
        requires
            old(self).wf(),
        ensures
            final(self).wf(),
            final(self).pos() >= old(self).pos(),
            final(self).input == old(self).input,
            final(self).component_tiles@ == old(self).component_tiles@,
            r matches Some(d) ==> {
                &&& old(self).valid(d)
                &&& old(self).pos() <= old(self).key(d) < final(self).pos()
                &&& old(self).none_within(old(self).pos(), old(self).key(d))
                &&& old(self).none_within(old(self).key(d) + 1, final(self).pos())
            },
            r is None ==> old(self).none_within(old(self).pos(), key4_end()),
    {
        let ghost k0 = self.pos();
        let ghost s0 = *self;
        if self.layer == self.input.layers.1 || self.resolution == self.input.resolutions.1 {
            proof {
                assert forall|d: ProgressionData| #[trigger] s0.valid(d) implies !(k0 <= s0.key(d) < key4_end()) by {
                    lemma_key4(
                        (d.layer_num as int, d.resolution as int, d.component as int, d.precinct as int),
                        (s0.layer as int, s0.resolution as int, s0.component_idx as int, s0.precinct as int),
                    );
                }
            }
            return None;
        }
        let l1 = self.input.layers.1;
        let c0 = self.input.components.0;
        let c1 = self.input.components.1;
        let rmax = self.input.resolutions.1;
        if self.precinct == self.resolution_tile.num_precincts() {
            loop
                invariant_except_break
                    self.precinct == self.resolution_tile.spec_num_precincts(),
                invariant
                    self.setup(),
                    s0 == *old(self),
                    k0 == s0.pos(),
                    self.input == s0.input,
                    self.component_tiles@ == s0.component_tiles@,
                    l1 == self.input.layers.1,
                    c0 == self.input.components.0,
                    c1 == self.input.components.1,
                    rmax == self.input.resolutions.1,
                    self.input.layers.0 <= self.layer < self.input.layers.1,
                    self.input.resolutions.0 <= self.resolution < self.input.first_component_resolution_end(),
                    self.input.components.0 <= self.component_idx < self.input.components.1,
                    self.resolution_tile == self.tile_at(self.layer as int, self.resolution as int, self.component_idx as int),
                    self.resolution_tile.wf(),
                    k0 <= self.pos(),
                    s0.none_within(k0, self.pos()),
                ensures
                    self.precinct == 0 < self.resolution_tile.spec_num_precincts(),
                decreases key4_end() - key4(self.layer as int, self.resolution as int, self.component_idx as int, 0),
            {
                let ghost prev = (self.layer as int, self.resolution as int, self.component_idx as int, self.precinct as int);
                proof {
                    self.resolution_tile.lemma_num_precincts_range();
                }
                self.precinct = 0;
                self.component_idx = self.component_idx + 1;
                if self.component_idx == c1 {
                    self.component_idx = c0;
                    self.resolution = self.resolution + 1;
                    let levels = self.component_tiles[c0 as usize].component_info.num_resolution_levels();
                    let end = if rmax <= levels { rmax } else { levels };
                    if self.resolution == end {
                        self.resolution = self.input.resolutions.0;
                        self.layer = self.layer + 1;
                        if self.layer == l1 {
                            proof {
                                let ghost next = (self.layer as int, self.resolution as int, self.component_idx as int, 0int);
                                s0.lemma_step(prev, next);
                                s0.lemma_none_within_join(k0, key4(prev.0, prev.1, prev.2, prev.3), key4_end());
                            }
                            return None;
                        }
                    }
                }
                let ghost next = (self.layer as int, self.resolution as int, self.component_idx as int, 0int);
                proof {
                    s0.lemma_step(prev, next);
                    s0.lemma_none_within_join(k0, key4(prev.0, prev.1, prev.2, prev.3), key4(next.0, next.1, next.2, next.3));
                }
                assert(self.input.levels(self.component_idx as int) >= self.input.first_component_resolution_end());
                self.resolution_tile = ResolutionTile::new(
                    self.component_tiles[self.component_idx as usize],
                    self.resolution as u16,
                );

                // Only yield if the resolution tile has precincts, otherwise
                // we need to keep advancing.
                if self.resolution_tile.num_precincts() != 0 {
                    break;
                }
            }
        }

        let data = ProgressionData {
            layer_num: self.layer,
            resolution: self.resolution,
            component: self.component_idx,
            precinct: self.precinct,
        };
        self.precinct = self.precinct + 1;
        Some(data)
    }
}

/// B.12.1.1 Layer-resolution level-component-position progression. Every
/// component must have the resolution levels that the iteration visits.
pub fn layer_resolution_component_position_progression<'a>(input: IteratorInput<'a>) -> (r: LayerResolutionComponentPosition<'a>)
    requires
        input.wf(),
        input.layer_resolution_supported(),
    ensures
        r.wf(),
        r.input == input,
        r.layer == input.layers.0,
        r.resolution == input.resolutions.0,
        r.component_idx == input.components.0,
        r.precinct == 0,
        r.none_within(0, r.pos()),
{
    let component_tiles = input.component_tiles();
    let layer = input.min_layer();
    let resolution = input.min_resolution();
    let component_idx = input.min_comp();
    let resolution_tile = ResolutionTile::new(component_tiles[0], resolution as u16);
    let r = LayerResolutionComponentPosition { input, component_tiles, layer, resolution, component_idx, resolution_tile, precinct: 0 };
    proof {
        r.resolution_tile.lemma_num_precincts_range();
        assert forall|d: ProgressionData| #[trigger] r.valid(d) implies !(0 <= r.key(d) < r.pos()) by {
            lemma_key4(
                (d.layer_num as int, d.resolution as int, d.component as int, d.precinct as int),
                (r.layer as int, r.resolution as int, r.component_idx as int, 0int),
            );
        }
    }
    r
}

/// B.12.1.2 Resolution level-layer-component-position progression: packets
/// ordered by resolution, then layer, then component, then precinct. It
/// starts at the first layer, resolution and component of the tile.
pub struct ResolutionLayerComponentPosition<'a> {
    pub input: IteratorInput<'a>,
    pub component_tiles: Vec<ComponentTile<'a>>,
    pub layer: u8,
    pub resolution: u8,
    pub component_idx: u8,
    pub resolution_tile: ResolutionTile<'a>,
    pub precinct: u64,
}

impl<'a> ResolutionLayerComponentPosition<'a> {
    /// The packets of the progression.
    pub open spec fn valid(&self, d: ProgressionData) -> bool {
        &&& d.layer_num < self.input.layers.1
        &&& d.resolution < self.input.resolutions.1
        &&& d.component < self.input.components.1
        &&& d.precinct < resolution_tile_spec(
            self.component_tiles@[d.component as int],
            d.resolution as int,
        ).spec_num_precincts()
    }

    /// The order of the progression.
    pub open spec fn key(&self, d: ProgressionData) -> int {
        key4(d.resolution as int, d.layer_num as int, d.component as int, d.precinct as int)
    }

    /// The position of the iteration: the key of the next candidate.
    pub open spec fn pos(&self) -> int {
        key4(self.resolution as int, self.layer as int, self.component_idx as int, self.precinct as int)
    }

    /// No packet of the progression has a key in `from..to`.
    pub open spec fn none_within(&self, from: int, to: int) -> bool {
        forall|d: ProgressionData| #[trigger] self.valid(d) ==> !(from <= self.key(d) < to)
    }

    /// Two adjacent ranges without packets make one.
    pub proof fn lemma_none_within_join(&self, a: int, b: int, c: int)
        requires
            self.none_within(a, b),
            self.none_within(b, c),
        ensures
            self.none_within(a, c),
    {
    }

    /// Moving on from the exhausted row of packets `prev` (in the order of
    /// the key; its precinct number is the count of the row) to the first
    /// packet of the next row skips no packet; past the last resolution no
    /// packet remains.
    pub proof fn lemma_step(&self, prev: (int, int, int, int), next: (int, int, int, int))
        requires
            self.setup(),
            0 <= prev.0 < self.input.resolutions.1,
            0 <= prev.1 < self.input.layers.1,
            0 <= prev.2 < self.input.components.1,
            prev.3 == resolution_tile_spec(self.component_tiles@[prev.2], prev.0).spec_num_precincts(),
            0 <= prev.3 < radix64(),
            (prev.2 + 1 < self.input.components.1 && next == (prev.0, prev.1, prev.2 + 1, 0int))
                || (prev.2 + 1 == self.input.components.1 && prev.1 + 1 < self.input.layers.1
                && next == (prev.0, prev.1 + 1, 0int, 0int))
                || (prev.2 + 1 == self.input.components.1 && prev.1 + 1 == self.input.layers.1
                && next == (prev.0 + 1, 0int, 0int, 0int)),
        ensures
            key4(prev.0, prev.1, prev.2, prev.3) < key4(next.0, next.1, next.2, next.3),
            self.none_within(key4(prev.0, prev.1, prev.2, prev.3), key4(next.0, next.1, next.2, next.3)),
            next.0 == self.input.resolutions.1 ==> self.none_within(key4(prev.0, prev.1, prev.2, prev.3), key4_end()),
    {
        lemma_key4(prev, next);
        assert forall|d: ProgressionData| #[trigger] self.valid(d) implies !(key4(prev.0, prev.1, prev.2, prev.3)
            <= self.key(d) < key4(next.0, next.1, next.2, next.3)) by {
            let t = (d.resolution as int, d.layer_num as int, d.component as int, d.precinct as int);
            lemma_key4(t, prev);
            lemma_key4(t, next);
        }
        if next.0 == self.input.resolutions.1 {
            assert forall|d: ProgressionData| #[trigger] self.valid(d) implies !(key4(prev.0, prev.1, prev.2, prev.3)
                <= self.key(d) < key4_end()) by {
                let t = (d.resolution as int, d.layer_num as int, d.component as int, d.precinct as int);
                lemma_key4(t, next);
            }
        }
    }

    /// The bounds are those of a tile for which every resolution tile of
    /// the iteration exists.
    pub open spec fn setup(&self) -> bool {
        &&& self.input.wf()
        &&& self.input.tiles_of(self.component_tiles@)
        &&& forall|c: int| 0 <= c < self.input.components.1 ==> self.input.levels(c) >= self.input.resolutions.1
    }

    pub open spec fn wf(&self) -> bool {
        &&& self.setup()
        &&& self.resolution <= self.input.resolutions.1
        &&& self.resolution < self.input.resolutions.1 ==> {
            &&& self.layer < self.input.layers.1
            &&& self.component_idx < self.input.components.1
            &&& self.resolution_tile == resolution_tile_spec(
                self.component_tiles@[self.component_idx as int],
                self.resolution as int,
            )
            &&& self.resolution_tile.wf()
            &&& self.precinct <= self.resolution_tile.spec_num_precincts()
        }
    }

    /// The least packet at or after the position, if any, after which the
    /// position moves past it.
    pub fn next(&mut self) -> (r: Option<ProgressionData>)
        requires
            old(self).wf(),
        ensures
            final(self).wf(),
            final(self).pos() >= old(self).pos(),
            final(self).input == old(self).input,
            final(self).component_tiles@ == old(self).component_tiles@,
            r matches Some(d) ==> {
                &&& old(self).valid(d)
                &&& old(self).pos() <= old(self).key(d) < final(self).pos()
                &&& old(self).none_within(old(self).pos(), old(self).key(d))
                &&& old(self).none_within(old(self).key(d) + 1, final(self).pos())
            },
            r is None ==> old(self).none_within(old(self).pos(), key4_end()),
    {
        let ghost k0 = self.pos();
        let ghost s0 = *self;
        if self.layer == self.input.layers.1 || self.resolution == self.input.resolutions.1 {
            proof {
                assert forall|d: ProgressionData| #[trigger] s0.valid(d) implies !(k0 <= s0.key(d) < key4_end()) by {
                    lemma_key4(
                        (d.resolution as int, d.layer_num as int, d.component as int, d.precinct as int),
                        (s0.resolution as int, s0.layer as int, s0.component_idx as int, s0.precinct as int),
                    );
                }
            }
            return None;
        }
        let l1 = self.input.layers.1;
        let c1 = self.input.components.1;
        let rmax = self.input.resolutions.1;
        if self.precinct == self.resolution_tile.num_precincts() {
            loop
                invariant_except_break
                    self.precinct == self.resolution_tile.spec_num_precincts(),
                invariant
                    self.setup(),
                    s0 == *old(self),
                    k0 == s0.pos(),
                    self.input == s0.input,
                    self.component_tiles@ == s0.component_tiles@,
                    l1 == self.input.layers.1,
                    c1 == self.input.components.1,
                    rmax == self.input.resolutions.1,
                    self.layer < self.input.layers.1,
                    self.resolution < self.input.resolutions.1,
                    self.component_idx < self.input.components.1,
                    self.resolution_tile == resolution_tile_spec(
                        self.component_tiles@[self.component_idx as int],
                        self.resolution as int,
                    ),
                    self.resolution_tile.wf(),
                    k0 <= self.pos(),
                    s0.none_within(k0, self.pos()),
                ensures
                    self.precinct == 0 < self.resolution_tile.spec_num_precincts(),
                decreases key4_end() - key4(self.resolution as int, self.layer as int, self.component_idx as int, 0),
            {
                let ghost prev = (self.resolution as int, self.layer as int, self.component_idx as int, self.precinct as int);
                proof {
                    self.resolution_tile.lemma_num_precincts_range();
                }
                self.precinct = 0;
                self.component_idx = self.component_idx + 1;
                if self.component_idx == c1 {
                    self.component_idx = 0;
                    self.layer = self.layer + 1;
                    if self.layer == l1 {
                        self.layer = 0;
                        self.resolution = self.resolution + 1;
                        if self.resolution == rmax {
                            proof {
                                let ghost next = (self.resolution as int, self.layer as int, self.component_idx as int, 0int);
                                s0.lemma_step(prev, next);
                                s0.lemma_none_within_join(k0, key4(prev.0, prev.1, prev.2, prev.3), key4_end());
                            }
                            return None;
                        }
                    }
                }
                let ghost next = (self.resolution as int, self.layer as int, self.component_idx as int, 0int);
                proof {
                    s0.lemma_step(prev, next);
                    s0.lemma_none_within_join(k0, key4(prev.0, prev.1, prev.2, prev.3), key4(next.0, next.1, next.2, next.3));
                }
                assert(self.input.levels(self.component_idx as int) >= self.input.resolutions.1);
                self.resolution_tile = ResolutionTile::new(
                    self.component_tiles[self.component_idx as usize],
                    self.resolution as u16,
                );

                // Only yield if the resolution tile has precincts, otherwise
                // we need to keep advancing.
                if self.resolution_tile.num_precincts() != 0 {
                    break;
                }
            }
        }

        let data = ProgressionData {
            layer_num: self.layer,
            resolution: self.resolution,
            component: self.component_idx,
            precinct: self.precinct,
        };
        self.precinct = self.precinct + 1;
        Some(data)
    }
}

/// B.12.1.2 Resolution level-layer-component-position progression. Every
/// component must have all resolution levels of the iteration.
pub fn resolution_layer_component_position_progression<'a>(input: IteratorInput<'a>) -> (r: ResolutionLayerComponentPosition<'a>)
    requires
        input.wf(),
        input.resolution_layer_supported(),
    ensures
        r.wf(),
        r.input == input,
        r.layer == 0,
        r.resolution == 0,
        r.component_idx == 0,
        r.precinct == 0,
        r.none_within(0, r.pos()),
{
    let component_tiles = input.component_tiles();
    assert(input.levels(0) >= input.resolutions.1);
    let resolution_tile = ResolutionTile::new(component_tiles[0], 0);
    let r = ResolutionLayerComponentPosition {
        input,
        component_tiles,
        layer: 0,
        resolution: 0,
        component_idx: 0,
        resolution_tile,
        precinct: 0,
    };
    proof {
        r.resolution_tile.lemma_num_precincts_range();
        assert forall|d: ProgressionData| #[trigger] r.valid(d) implies !(0 <= r.key(d) < r.pos()) by {
            lemma_key4(
                (d.resolution as int, d.layer_num as int, d.component as int, d.precinct as int),
                (0int, 0int, 0int, 0int),
            );
        }
    }
    r
}

// The remaining three progressions determine all precinct indices for each
// component/resolution combination and sort them by ascending y/x
// coordinate on the reference grid. Other than that, they can be treated
// exactly the same, except that the precedence of the fields changes.

/// The order of a position-based progression.
#[derive(Copy, Clone, Debug, PartialEq, Eq, Structural)]
pub enum PositionOrder {
    /// B.12.1.3: resolution, y, x, component.
    ResolutionPositionComponentLayer,
    /// B.12.1.4: y, x, component, resolution.
    PositionComponentResolutionLayer,
    /// B.12.1.5: component, y, x, resolution.
    ComponentPositionResolutionLayer,
}

/// A precinct of a component at a resolution, with its position on the
/// reference grid.
#[derive(Copy, Clone, Debug, PartialEq, Eq, Structural)]
pub struct PrecinctStore {
    pub resolution: u8,
    pub precinct_y: u32,
    pub precinct_x: u32,
    pub component_idx: u8,
    pub precinct_idx: u64,
}

/// The key of five numbers below `2^64` compared lexicographically.
pub open spec fn key5(a: int, b: int, c: int, d: int, e: int) -> int {
    (((a * radix64() + b) * radix64() + c) * radix64() + d) * radix64() + e
}

/// A key above the key of every precinct.
pub open spec fn key5_end() -> int {
    radix64() * radix64() * radix64() * radix64() * radix64()
}

/// Keys of five numbers compare as the numbers compare lexicographically.
pub proof fn lemma_key5(a: (int, int, int, int, int), b: (int, int, int, int, int))
    requires
        0 <= a.0 < radix64(), 0 <= a.1 < radix64(), 0 <= a.2 < radix64(), 0 <= a.3 < radix64(), 0 <= a.4 < radix64(),
        0 <= b.0 < radix64(), 0 <= b.1 < radix64(), 0 <= b.2 < radix64(), 0 <= b.3 < radix64(), 0 <= b.4 < radix64(),
    ensures
        (key5(a.0, a.1, a.2, a.3, a.4) <= key5(b.0, b.1, b.2, b.3, b.4)) == (a.0 < b.0 || (a.0 == b.0 && (a.1 < b.1
            || (a.1 == b.1 && (a.2 < b.2 || (a.2 == b.2 && (a.3 < b.3 || (a.3 == b.3 && a.4 <= b.4)))))))),
        (key5(a.0, a.1, a.2, a.3, a.4) == key5(b.0, b.1, b.2, b.3, b.4)) == (a == b),
        0 <= key5(a.0, a.1, a.2, a.3, a.4) < key5_end(),
{
    let m = radix64();
    let ka1 = a.0 * m + a.1;
    let kb1 = b.0 * m + b.1;
    let ka2 = ka1 * m + a.2;
    let kb2 = kb1 * m + b.2;
    let ka3 = ka2 * m + a.3;
    let kb3 = kb2 * m + b.3;
    assert(0 <= ka1 < m * m);
    assert(0 <= kb1 < m * m);
    assert(0 <= ka2 < m * m * m) by (nonlinear_arith) requires 0 <= ka1 < m * m, 0 <= a.2 < m, m > 0, ka2 == ka1 * m + a.2;
    assert(0 <= kb2 < m * m * m) by (nonlinear_arith) requires 0 <= kb1 < m * m, 0 <= b.2 < m, m > 0, kb2 == kb1 * m + b.2;
    assert(0 <= ka3 < m * m * m * m) by (nonlinear_arith) requires 0 <= ka2 < m * m * m, 0 <= a.3 < m, m > 0, ka3 == ka2 * m + a.3;
    assert(0 <= kb3 < m * m * m * m) by (nonlinear_arith) requires 0 <= kb2 < m * m * m, 0 <= b.3 < m, m > 0, kb3 == kb2 * m + b.3;
    assert(0 <= ka3 * m + a.4 < m * m * m * m * m) by (nonlinear_arith) requires 0 <= ka3 < m * m * m * m, 0 <= a.4 < m, m > 0;
    lemma_radix(a.0, a.1, b.0, b.1, m);
    lemma_radix(ka1, a.2, kb1, b.2, m);
    lemma_radix(ka2, a.3, kb2, b.3, m);
    lemma_radix(ka3, a.4, kb3, b.4, m);
}

/// Two digits in radix `m` compare lexicographically.
proof fn lemma_radix(hi_a: int, lo_a: int, hi_b: int, lo_b: int, m: int)
    requires
        0 <= lo_a < m,
        0 <= lo_b < m,
    ensures
        (hi_a * m + lo_a <= hi_b * m + lo_b) == (hi_a < hi_b || (hi_a == hi_b && lo_a <= lo_b)),
        (hi_a * m + lo_a < hi_b * m + lo_b) == (hi_a < hi_b || (hi_a == hi_b && lo_a < lo_b)),
        (hi_a * m + lo_a == hi_b * m + lo_b) == (hi_a == hi_b && lo_a == lo_b),
{
    if hi_a < hi_b {
        assert(hi_a * m + m <= hi_b * m) by (nonlinear_arith) requires hi_a < hi_b, m > 0;
    } else if hi_a > hi_b {
        assert(hi_b * m + m <= hi_a * m) by (nonlinear_arith) requires hi_b < hi_a, m > 0;
    }
}

/// The key of a precinct in the order of a progression.
pub open spec fn store_key(s: PrecinctStore, order: PositionOrder) -> int {
    match order {
        PositionOrder::ResolutionPositionComponentLayer => key5(
            s.resolution as int, s.precinct_y as int, s.precinct_x as int, s.component_idx as int, s.precinct_idx as int),
        PositionOrder::PositionComponentResolutionLayer => key5(
            s.precinct_y as int, s.precinct_x as int, s.component_idx as int, s.resolution as int, s.precinct_idx as int),
        PositionOrder::ComponentPositionResolutionLayer => key5(
            s.component_idx as int, s.precinct_y as int, s.precinct_x as int, s.resolution as int, s.precinct_idx as int),
    }
}

/// The fields of a precinct in the order of a progression.
pub open spec fn store_fields(s: PrecinctStore, order: PositionOrder) -> (int, int, int, int, int) {
    match order {
        PositionOrder::ResolutionPositionComponentLayer => (
            s.resolution as int, s.precinct_y as int, s.precinct_x as int, s.component_idx as int, s.precinct_idx as int),
        PositionOrder::PositionComponentResolutionLayer => (
            s.precinct_y as int, s.precinct_x as int, s.component_idx as int, s.resolution as int, s.precinct_idx as int),
        PositionOrder::ComponentPositionResolutionLayer => (
            s.component_idx as int, s.precinct_y as int, s.precinct_x as int, s.resolution as int, s.precinct_idx as int),
    }
}

/// Distinct precincts have distinct keys, and keys lie below the end.
pub proof fn lemma_store_key(a: PrecinctStore, b: PrecinctStore, order: PositionOrder)
    ensures
        (store_key(a, order) == store_key(b, order)) == (a == b),
        0 <= store_key(a, order) < key5_end(),
{
    let fa = store_fields(a, order);
    let fb = store_fields(b, order);
    lemma_key5(fa, fb);
}

/// Whether the precincts are sorted by their keys.
pub open spec fn sorted_by_key(s: Seq<PrecinctStore>, order: PositionOrder) -> bool {
    forall|i: int, j: int| 0 <= i <= j < s.len() ==> store_key(#[trigger] s[i], order) <= store_key(#[trigger] s[j], order)
}

/// Whether the key of `a` is at most that of `b`.
fn key_le(a: &PrecinctStore, b: &PrecinctStore, order: PositionOrder) -> (r: bool)
    ensures
        r == (store_key(*a, order) <= store_key(*b, order)),
{
    let (x, y) = match order {
        PositionOrder::ResolutionPositionComponentLayer => (
            [a.resolution as u64, a.precinct_y as u64, a.precinct_x as u64, a.component_idx as u64, a.precinct_idx],
            [b.resolution as u64, b.precinct_y as u64, b.precinct_x as u64, b.component_idx as u64, b.precinct_idx],
        ),
        PositionOrder::PositionComponentResolutionLayer => (
            [a.precinct_y as u64, a.precinct_x as u64, a.component_idx as u64, a.resolution as u64, a.precinct_idx],
            [b.precinct_y as u64, b.precinct_x as u64, b.component_idx as u64, b.resolution as u64, b.precinct_idx],
        ),
        PositionOrder::ComponentPositionResolutionLayer => (
            [a.component_idx as u64, a.precinct_y as u64, a.precinct_x as u64, a.resolution as u64, a.precinct_idx],
            [b.component_idx as u64, b.precinct_y as u64, b.precinct_x as u64, b.resolution as u64, b.precinct_idx],
        ),
    };
    proof {
        let fa = store_fields(*a, order);
        let fb = store_fields(*b, order);
        assert(fa == (x[0] as int, x[1] as int, x[2] as int, x[3] as int, x[4] as int));
        assert(fb == (y[0] as int, y[1] as int, y[2] as int, y[3] as int, y[4] as int));
        lemma_key5(fa, fb);
    }
    if x[0] != y[0] {
        x[0] < y[0]
    } else if x[1] != y[1] {
        x[1] < y[1]
    } else if x[2] != y[2] {
        x[2] < y[2]
    } else if x[3] != y[3] {
        x[3] < y[3]
    } else {
        x[4] <= y[4]
    }
}

/// The two sorted sequences merged into one.
fn merge(a: &Vec<PrecinctStore>, b: &Vec<PrecinctStore>, order: PositionOrder) -> (r: Vec<PrecinctStore>)
    requires
        sorted_by_key(a@, order),
        sorted_by_key(b@, order),
    ensures
        sorted_by_key(r@, order),
        r@.to_multiset() == a@.to_multiset().add(b@.to_multiset()),
{
    broadcast use vstd::seq_lib::group_to_multiset_ensures, vstd::multiset::group_multiset_axioms;
    let mut out: Vec<PrecinctStore> = Vec::new();
    let mut i: usize = 0;
    let mut j: usize = 0;
    proof {
        assert(a@.take(0) =~= Seq::<PrecinctStore>::empty());
        assert(b@.take(0) =~= Seq::<PrecinctStore>::empty());
        assert(out@.to_multiset() =~= a@.take(0).to_multiset().add(b@.take(0).to_multiset()));
    }
    while i < a.len() || j < b.len()
        invariant
            i <= a@.len(),
            j <= b@.len(),
            sorted_by_key(a@, order),
            sorted_by_key(b@, order),
            sorted_by_key(out@, order),
            out@.to_multiset() == a@.take(i as int).to_multiset().add(b@.take(j as int).to_multiset()),
            forall|k: int| 0 <= k < out@.len() ==> (i < a@.len() ==> store_key(#[trigger] out@[k], order) <= store_key(a@[i as int], order)),
            forall|k: int| 0 <= k < out@.len() ==> (j < b@.len() ==> store_key(#[trigger] out@[k], order) <= store_key(b@[j as int], order)),
        decreases a@.len() + b@.len() - i - j,
    {
        let take_a = if i < a.len() && j < b.len() {
            key_le(&a[i], &b[j], order)
        } else {
            i < a.len()
        };
        let ghost before = out@;
        if take_a {
            let x = a[i];
            out.push(x);
            proof {
                assert(a@.take(i + 1) =~= a@.take(i as int).push(x));
                assert(out@ =~= before.push(x));
                vstd::seq_lib::to_multiset_build(before, x);
                vstd::seq_lib::to_multiset_build(a@.take(i as int), x);
                assert(out@.to_multiset() =~= a@.take(i + 1).to_multiset().add(b@.take(j as int).to_multiset()));
            }
            i = i + 1;
        } else {
            let x = b[j];
            out.push(x);
            proof {
                assert(b@.take(j + 1) =~= b@.take(j as int).push(x));
                assert(out@ =~= before.push(x));
                vstd::seq_lib::to_multiset_build(before, x);
                vstd::seq_lib::to_multiset_build(b@.take(j as int), x);
                assert(out@.to_multiset() =~= a@.take(i as int).to_multiset().add(b@.take(j + 1).to_multiset()));
            }
            j = j + 1;
        }
    }
    proof {
        assert(a@.take(i as int) =~= a@);
        assert(b@.take(j as int) =~= b@);
    }
    out
}

/// The precincts sorted by their keys.
fn sort_precincts(v: Vec<PrecinctStore>, order: PositionOrder) -> (r: Vec<PrecinctStore>)
    ensures
        sorted_by_key(r@, order),
        r@.to_multiset() == v@.to_multiset(),
    decreases v@.len(),
{
    broadcast use vstd::seq_lib::group_to_multiset_ensures, vstd::multiset::group_multiset_axioms;
    if v.len() <= 1 {
        return v;
    }
    let ghost all = v@;
    let mut left = v;
    let mid = left.len() / 2;
    let right = left.split_off(mid);
    proof {
        assert(all =~= left@ + right@);
        vstd::seq_lib::lemma_multiset_commutative(left@, right@);
    }
    let sorted_left = sort_precincts(left, order);
    let sorted_right = sort_precincts(right, order);
    merge(&sorted_left, &sorted_right, order)
}

/// The precinct with index `k` of component `c` at resolution `r`, with
/// its position on the reference grid.
pub open spec fn store_at<'a>(tiles: Seq<ComponentTile<'a>>, c: int, r: int, k: int) -> PrecinctStore {
    let p = resolution_tile_spec(tiles[c], r).spec_precinct(k);
    PrecinctStore {
        resolution: r as u8,
        precinct_y: p.r_y,
        precinct_x: p.r_x,
        component_idx: c as u8,
        precinct_idx: p.idx,
    }
}

/// The precincts that a position-based progression visits: those of the
/// resolution levels in range of each component in range.
pub open spec fn valid_store<'a>(input: IteratorInput<'a>, tiles: Seq<ComponentTile<'a>>, s: PrecinctStore) -> bool {
    &&& input.components.0 <= s.component_idx < input.components.1
    &&& input.resolutions.0 <= s.resolution < input.resolutions.1
    &&& s.resolution < input.levels(s.component_idx as int)
    &&& s.precinct_idx < resolution_tile_spec(tiles[s.component_idx as int], s.resolution as int).spec_num_precincts()
    &&& s == store_at(tiles, s.component_idx as int, s.resolution as int, s.precinct_idx as int)
}

/// A resolution tile of the iteration above resolution zero has a precinct
/// exponent of zero, which leaves its sub-bands without a precinct size.
pub open spec fn lacks_precinct_size<'a>(input: IteratorInput<'a>, tiles: Seq<ComponentTile<'a>>, c: int, r: int) -> bool {
    &&& input.components.0 <= c < input.components.1
    &&& input.resolutions.0 <= r < input.resolutions.1
    &&& r < input.levels(c)
    &&& r > 0
    &&& (resolution_tile_spec(tiles[c], r).spec_ppx() == 0 || resolution_tile_spec(tiles[c], r).spec_ppy() == 0)
}

/// Whether `s` comes before component `c`, resolution `r` and precinct `k`
/// in the order in which the precincts are collected.
pub open spec fn collected_before(s: PrecinctStore, c: int, r: int, k: int) -> bool {
    s.component_idx < c || (s.component_idx == c && (s.resolution < r || (s.resolution == r && s.precinct_idx < k)))
}

/// All precincts of the iteration, without duplicates, or `None` when a
/// resolution tile lacks a precinct size.
fn collect_precincts<'a>(input: &IteratorInput<'a>, tiles: &Vec<ComponentTile<'a>>) -> (r: Option<Vec<PrecinctStore>>)
    requires
        input.wf(),
        input.tiles_of(tiles@),
    ensures
        r is None <==> exists|c: int, res: int| lacks_precinct_size(*input, tiles@, c, res),
        r matches Some(v) ==> {
            &&& v@.no_duplicates()
            &&& forall|k: int| 0 <= k < v@.len() ==> valid_store(*input, tiles@, #[trigger] v@[k])
            &&& forall|s: PrecinctStore| valid_store(*input, tiles@, s) ==> #[trigger] v@.contains(s)
        },
{
    let mut elements: Vec<PrecinctStore> = Vec::new();
    let c1 = input.components.1;
    let rmax = input.resolutions.1;
    let mut c: u8 = input.components.0;
    while c < c1
        invariant
            input.wf(),
            input.tiles_of(tiles@),
            c1 == input.components.1,
            rmax == input.resolutions.1,
            input.components.0 <= c <= c1,
            forall|c2: int, r2: int| c2 < c ==> !lacks_precinct_size(*input, tiles@, c2, r2),
            elements@.no_duplicates(),
            forall|k: int| 0 <= k < elements@.len() ==> valid_store(*input, tiles@, #[trigger] elements@[k]),
            forall|k: int| 0 <= k < elements@.len() ==> collected_before(#[trigger] elements@[k], c as int, 0, 0),
            forall|s: PrecinctStore|
                valid_store(*input, tiles@, s) && collected_before(s, c as int, 0, 0) ==> #[trigger] elements@.contains(s),
        decreases c1 - c,
    {
        let component_tile = tiles[c as usize];
        let levels = component_tile.component_info.num_resolution_levels();
        let end = if rmax <= levels { rmax } else { levels };
        let mut r: u8 = input.resolutions.0;
        while r < end
            invariant
                input.wf(),
                input.tiles_of(tiles@),
                c1 == input.components.1,
                rmax == input.resolutions.1,
                input.components.0 <= c < c1,
                component_tile == tiles@[c as int],
                end as int == (if rmax <= input.levels(c as int) { rmax as int } else { input.levels(c as int) }),
                input.resolutions.0 <= r,
                forall|c2: int, r2: int| c2 < c ==> !lacks_precinct_size(*input, tiles@, c2, r2),
                forall|r2: int| r2 < r ==> !lacks_precinct_size(*input, tiles@, c as int, r2),
                elements@.no_duplicates(),
                forall|k: int| 0 <= k < elements@.len() ==> valid_store(*input, tiles@, #[trigger] elements@[k]),
                forall|k: int| 0 <= k < elements@.len() ==> collected_before(#[trigger] elements@[k], c as int, r as int, 0),
                forall|s: PrecinctStore|
                    valid_store(*input, tiles@, s) && collected_before(s, c as int, r as int, 0) ==> #[trigger] elements@.contains(s),
            decreases end - r,
        {
            let resolution_tile = ResolutionTile::new(component_tile, r as u16);
            let precincts = match resolution_tile.precincts() {
                Some(p) => p,
                None => {
                    assert(lacks_precinct_size(*input, tiles@, c as int, r as int));
                    return None;
                },
            };
            let n = precincts.len();
            let mut k: usize = 0;
            while k < n
                invariant
                    input.wf(),
                    input.tiles_of(tiles@),
                    input.components.0 <= c < input.components.1,
                    input.resolutions.0 <= r < input.resolutions.1,
                    r < input.levels(c as int),
                    component_tile == tiles@[c as int],
                    resolution_tile == resolution_tile_spec(component_tile, r as int),
                    n == precincts@.len(),
                    n == resolution_tile.spec_num_precincts(),
                    forall|j: int| 0 <= j < n ==> (#[trigger] precincts@[j]) == resolution_tile.spec_precinct(j),
                    k <= n,
                    elements@.no_duplicates(),
                    forall|j: int| 0 <= j < elements@.len() ==> valid_store(*input, tiles@, #[trigger] elements@[j]),
                    forall|j: int| 0 <= j < elements@.len() ==> collected_before(#[trigger] elements@[j], c as int, r as int, k as int),
                    forall|s: PrecinctStore|
                        valid_store(*input, tiles@, s) && collected_before(s, c as int, r as int, k as int) ==> #[trigger] elements@.contains(s),
                decreases n - k,
            {
                let d = precincts[k];
                let store = PrecinctStore {
                    precinct_y: d.r_y,
                    precinct_x: d.r_x,
                    component_idx: c,
                    resolution: r,
                    precinct_idx: d.idx,
                };
                let ghost before = elements@;
                proof {
                    assert(store == store_at(tiles@, c as int, r as int, k as int));
                    assert(valid_store(*input, tiles@, store));
                    assert(!before.contains(store)) by {
                        if before.contains(store) {
                            let j = choose|j: int| 0 <= j < before.len() && before[j] == store;
                            assert(collected_before(before[j], c as int, r as int, k as int));
                        }
                    }
                }
                elements.push(store);
                proof {
                    assert(elements@ =~= before.push(store));
                    assert forall|s: PrecinctStore|
                        valid_store(*input, tiles@, s) && collected_before(s, c as int, r as int, k + 1) implies #[trigger] elements@.contains(s) by {
                        if s == store {
                            assert(elements@[before.len() as int] == store);
                        } else {
                            assert(collected_before(s, c as int, r as int, k as int));
                            assert(before.contains(s));
                            let j = choose|j: int| 0 <= j < before.len() && before[j] == s;
                            assert(elements@[j] == s);
                        }
                    }
                }
                k = k + 1;
            }
            proof {
                assert forall|s: PrecinctStore|
                    valid_store(*input, tiles@, s) && collected_before(s, c as int, r + 1, 0) implies #[trigger] elements@.contains(s) by {
                    assert(collected_before(s, c as int, r as int, k as int));
                }
            }
            r = r + 1;
        }
        proof {
            assert forall|r2: int| true implies !lacks_precinct_size(*input, tiles@, c as int, r2) by {
                if r2 >= r {
                    assert(!(r2 < input.levels(c as int) && r2 < input.resolutions.1));
                }
            }
            assert forall|s: PrecinctStore|
                valid_store(*input, tiles@, s) && collected_before(s, c + 1, 0, 0) implies #[trigger] elements@.contains(s) by {
                assert(collected_before(s, c as int, r as int, 0));
            }
        }
        c = c + 1;
    }
    proof {
        assert forall|s: PrecinctStore| valid_store(*input, tiles@, s) implies #[trigger] elements@.contains(s) by {
            assert(collected_before(s, c as int, 0, 0));
        }
        assert forall|c2: int, r2: int| true implies !lacks_precinct_size(*input, tiles@, c2, r2) by {
            if c2 >= c {
                assert(!(c2 < input.components.1));
            }
        }
    }
    Some(elements)
}

/// A position-based progression: the precincts sorted by the key of the
/// order, each with all layers in range.
pub struct PositionProgression<'a> {
    pub input: IteratorInput<'a>,
    pub component_tiles: Vec<ComponentTile<'a>>,
    pub order: PositionOrder,
    pub elements: Vec<PrecinctStore>,
    pub idx: usize,
    pub layer: u8,
}

impl<'a> PositionProgression<'a> {
    /// The precinct of a packet.
    pub open spec fn store_of(&self, d: ProgressionData) -> PrecinctStore {
        store_at(self.component_tiles@, d.component as int, d.resolution as int, d.precinct as int)
    }

    /// The packets of the progression.
    pub open spec fn valid(&self, d: ProgressionData) -> bool {
        &&& self.input.layers.0 <= d.layer_num < self.input.layers.1
        &&& valid_store(self.input, self.component_tiles@, self.store_of(d))
    }

    /// The order of the progression: by precinct, then by layer.
    pub open spec fn key(&self, d: ProgressionData) -> int {
        store_key(self.store_of(d), self.order) * 256 + d.layer_num
    }

    /// The position of the iteration: the key of the next candidate.
    pub open spec fn pos(&self) -> int {
        if self.idx < self.elements@.len() {
            store_key(self.elements@[self.idx as int], self.order) * 256 + self.layer
        } else {
            key5_end() * 256
        }
    }

    /// No packet of the progression has a key in `from..to`.
    pub open spec fn none_within(&self, from: int, to: int) -> bool {
        forall|d: ProgressionData| #[trigger] self.valid(d) ==> !(from <= self.key(d) < to)
    }

    /// The precincts are those of the iteration, each once, in the order
    /// of their keys.
    pub open spec fn wf(&self) -> bool {
        &&& self.input.wf()
        &&& self.input.tiles_of(self.component_tiles@)
        &&& forall|i: int, j: int|
            0 <= i < j < self.elements@.len() ==> store_key(#[trigger] self.elements@[i], self.order)
                < store_key(#[trigger] self.elements@[j], self.order)
        &&& forall|k: int| 0 <= k < self.elements@.len() ==> valid_store(self.input, self.component_tiles@, #[trigger] self.elements@[k])
        &&& forall|s: PrecinctStore| valid_store(self.input, self.component_tiles@, s) ==> #[trigger] self.elements@.contains(s)
        &&& self.idx <= self.elements@.len()
        &&& self.input.layers.0 <= self.layer < self.input.layers.1
    }

    /// The least packet at or after the position, if any, after which the
    /// position moves past it.
    #[verifier::rlimit(40)]
    #[verifier::spinoff_prover]
    pub fn next(&mut self) -> (r: Option<ProgressionData>)
        requires
            old(self).wf(),
        ensures
            final(self).wf(),
            final(self).pos() >= old(self).pos(),
            final(self).input == old(self).input,
            final(self).component_tiles@ == old(self).component_tiles@,
            final(self).order == old(self).order,
            final(self).elements@ == old(self).elements@,
            r matches Some(d) ==> {
                &&& old(self).valid(d)
                &&& old(self).pos() <= old(self).key(d) < final(self).pos()
                &&& old(self).none_within(old(self).pos(), old(self).key(d))
                &&& old(self).none_within(old(self).key(d) + 1, final(self).pos())
            },
            r is None ==> old(self).none_within(old(self).pos(), key5_end() * 256),
    {
        let ghost s0 = *self;
        if self.idx >= self.elements.len() {
            proof {
                assert forall|d: ProgressionData| #[trigger] s0.valid(d) implies !(s0.pos() <= s0.key(d) < key5_end() * 256) by {
                    lemma_store_key(s0.store_of(d), s0.store_of(d), s0.order);
                }
            }
            return None;
        }
        let e = self.elements[self.idx];
        let data = ProgressionData {
            layer_num: self.layer,
            resolution: e.resolution,
            component: e.component_idx,
            precinct: e.precinct_idx,
        };
        proof {
            assert(s0.store_of(data) == e);
        }
        self.layer = self.layer + 1;
        if self.layer == self.input.layers.1 {
            self.layer = self.input.layers.0;
            self.idx = self.idx + 1;
            proof {
                let n = s0.elements@.len();
                let i = s0.idx as int;
                lemma_store_key(e, e, s0.order);
                if i + 1 < n {
                    assert(store_key(s0.elements@[i], s0.order) < store_key(s0.elements@[i + 1], s0.order));
                }
                assert forall|u: ProgressionData| #[trigger] s0.valid(u) implies !(s0.key(data) + 1 <= s0.key(u) < self.pos()) by {
                    let su = s0.store_of(u);
                    assert(s0.elements@.contains(su));
                    let m = choose|m: int| 0 <= m < n && s0.elements@[m] == su;
                    lemma_store_key(su, su, s0.order);
                    if m < i {
                        assert(store_key(s0.elements@[m], s0.order) < store_key(s0.elements@[i], s0.order));
                    } else if m > i {
                        if m > i + 1 {
                            assert(store_key(s0.elements@[i + 1], s0.order) < store_key(s0.elements@[m], s0.order));
                        }
                    }
                }
            }
        }
        Some(data)
    }
}

/// The precincts of the iteration sorted by the key of `order`, each with
/// all layers in range, or `None` when a resolution tile lacks a precinct
/// size.
pub fn position_progression_common<'a>(input: IteratorInput<'a>, order: PositionOrder) -> (r: Option<PositionProgression<'a>>)
    requires
        input.wf(),
    ensures
        r is None <==> exists|c: int, res: int| lacks_precinct_size(input, input.tile.component_tiles_spec(), c, res),
        r matches Some(p) ==> {
            &&& p.wf()
            &&& p.input == input
            &&& p.component_tiles@ == input.tile.component_tiles_spec()
            &&& p.order == order
            &&& p.idx == 0
            &&& p.layer == input.layers.0
            &&& p.none_within(0, p.pos())
        },
{
    broadcast use vstd::seq_lib::group_to_multiset_ensures, vstd::multiset::group_multiset_axioms;
    let component_tiles = input.component_tiles();
    let elements = match collect_precincts(&input, &component_tiles) {
        Some(v) => v,
        None => return None,
    };
    let ghost collected = elements@;
    let sorted = sort_precincts(elements, order);
    proof {
        collected.lemma_multiset_has_no_duplicates();
        assert forall|x: PrecinctStore| sorted@.to_multiset().contains(x) implies sorted@.to_multiset().count(x) == 1 by {
            assert(collected.to_multiset().contains(x));
        }
        sorted@.lemma_multiset_has_no_duplicates_conv();
        assert forall|i: int, j: int| 0 <= i < j < sorted@.len() implies store_key(#[trigger] sorted@[i], order)
            < store_key(#[trigger] sorted@[j], order) by {
            lemma_store_key(sorted@[i], sorted@[j], order);
        }
        assert forall|k: int| 0 <= k < sorted@.len() implies valid_store(input, component_tiles@, #[trigger] sorted@[k]) by {
            let x = sorted@[k];
            vstd::seq_lib::to_multiset_contains(sorted@, x);
            vstd::seq_lib::to_multiset_contains(collected, x);
            let m = choose|m: int| 0 <= m < collected.len() && collected[m] == x;
        }
        assert forall|x: PrecinctStore| valid_store(input, component_tiles@, x) implies #[trigger] sorted@.contains(x) by {
            vstd::seq_lib::to_multiset_contains(sorted@, x);
            vstd::seq_lib::to_multiset_contains(collected, x);
        }
    }
    let layer = input.min_layer();
    let r = PositionProgression { input, component_tiles, order, elements: sorted, idx: 0, layer };
    proof {
        assert forall|d: ProgressionData| #[trigger] r.valid(d) implies !(0 <= r.key(d) < r.pos()) by {
            let sd = r.store_of(d);
            assert(r.elements@.contains(sd));
            let m = choose|m: int| 0 <= m < r.elements@.len() && r.elements@[m] == sd;
            if m > 0 {
                assert(store_key(r.elements@[0], order) < store_key(r.elements@[m], order));
            }
        }
    }
    Some(r)
}

/// B.12.1.3 Resolution level-position-component-layer progression.
pub fn resolution_position_component_layer_progression<'a>(input: IteratorInput<'a>) -> (r: Option<PositionProgression<'a>>)
    requires
        input.wf(),
    ensures
        r is None <==> exists|c: int, res: int| lacks_precinct_size(input, input.tile.component_tiles_spec(), c, res),
        r matches Some(p) ==> p.wf() && p.input == input && p.component_tiles@ == input.tile.component_tiles_spec()
            && p.order == PositionOrder::ResolutionPositionComponentLayer && p.idx == 0 && p.layer == input.layers.0 && p.none_within(0, p.pos()),
{
    position_progression_common(input, PositionOrder::ResolutionPositionComponentLayer)
}

/// B.12.1.4 Position-component-resolution level-layer progression.
pub fn position_component_resolution_layer_progression<'a>(input: IteratorInput<'a>) -> (r: Option<PositionProgression<'a>>)
    requires
        input.wf(),
    ensures
        r is None <==> exists|c: int, res: int| lacks_precinct_size(input, input.tile.component_tiles_spec(), c, res),
        r matches Some(p) ==> p.wf() && p.input == input && p.component_tiles@ == input.tile.component_tiles_spec()
            && p.order == PositionOrder::PositionComponentResolutionLayer && p.idx == 0 && p.layer == input.layers.0 && p.none_within(0, p.pos()),
{
    position_progression_common(input, PositionOrder::PositionComponentResolutionLayer)
}

/// B.12.1.5 Component-position-resolution level-layer progression.
pub fn component_position_resolution_layer_progression<'a>(input: IteratorInput<'a>) -> (r: Option<PositionProgression<'a>>)
    requires
        input.wf(),
    ensures
        r is None <==> exists|c: int, res: int| lacks_precinct_size(input, input.tile.component_tiles_spec(), c, res),
        r matches Some(p) ==> p.wf() && p.input == input && p.component_tiles@ == input.tile.component_tiles_spec()
            && p.order == PositionOrder::ComponentPositionResolutionLayer && p.idx == 0 && p.layer == input.layers.0 && p.none_within(0, p.pos()),
{
    position_progression_common(input, PositionOrder::ComponentPositionResolutionLayer)
}

/// One of the progressions of B.12.1.
pub enum ProgressionIterator<'a> {
    LayerResolution(LayerResolutionComponentPosition<'a>),
    ResolutionLayer(ResolutionLayerComponentPosition<'a>),
    Position(PositionProgression<'a>),
}

impl<'a> ProgressionIterator<'a> {
    pub open spec fn wf(&self) -> bool {
        match self {
            ProgressionIterator::LayerResolution(p) => p.wf(),
            ProgressionIterator::ResolutionLayer(p) => p.wf(),
            ProgressionIterator::Position(p) => p.wf(),
        }
    }

    /// The packets of the progression.
    pub open spec fn valid(&self, d: ProgressionData) -> bool {
        match self {
            ProgressionIterator::LayerResolution(p) => p.valid(d),
            ProgressionIterator::ResolutionLayer(p) => p.valid(d),
            ProgressionIterator::Position(p) => p.valid(d),
        }
    }

    /// The order of the progression.
    pub open spec fn key(&self, d: ProgressionData) -> int {
        match self {
            ProgressionIterator::LayerResolution(p) => p.key(d),
            ProgressionIterator::ResolutionLayer(p) => p.key(d),
            ProgressionIterator::Position(p) => p.key(d),
        }
    }

    /// The position of the iteration: the key of the next candidate.
    pub open spec fn pos(&self) -> int {
        match self {
            ProgressionIterator::LayerResolution(p) => p.pos(),
            ProgressionIterator::ResolutionLayer(p) => p.pos(),
            ProgressionIterator::Position(p) => p.pos(),
        }
    }

    /// The bounds of the iteration.
    pub open spec fn input(&self) -> IteratorInput<'a> {
        match self {
            ProgressionIterator::LayerResolution(p) => p.input,
            ProgressionIterator::ResolutionLayer(p) => p.input,
            ProgressionIterator::Position(p) => p.input,
        }
    }

    /// A bound above every key of the progression.
    pub open spec fn end(&self) -> int {
        match self {
            ProgressionIterator::Position(_) => key5_end() * 256,
            _ => key4_end(),
        }
    }

    /// How far the position is from the end.
    pub open spec fn remaining(&self) -> int {
        self.end() - self.pos()
    }

    /// Both iterate over the same packets in the same order.
    pub open spec fn same_packets(&self, other: &Self) -> bool {
        match (self, other) {
            (ProgressionIterator::LayerResolution(a), ProgressionIterator::LayerResolution(b)) => a.input == b.input
                && a.component_tiles@ == b.component_tiles@,
            (ProgressionIterator::ResolutionLayer(a), ProgressionIterator::ResolutionLayer(b)) => a.input == b.input
                && a.component_tiles@ == b.component_tiles@,
            (ProgressionIterator::Position(a), ProgressionIterator::Position(b)) => a.input == b.input
                && a.component_tiles@ == b.component_tiles@ && a.order == b.order && a.elements@ == b.elements@,
            _ => false,
        }
    }

    /// No packet of the progression has a key in `from..to`.
    pub open spec fn none_within(&self, from: int, to: int) -> bool {
        forall|d: ProgressionData| #[trigger] self.valid(d) ==> !(from <= self.key(d) < to)
    }

    /// The position lies at or below the end.
    pub proof fn lemma_pos_bound(&self)
        requires
            self.wf(),
        ensures
            0 <= self.pos() <= self.end(),
    {
        match self {
            ProgressionIterator::LayerResolution(p) => {
                lemma_key4(
                    (p.layer as int, p.resolution as int, p.component_idx as int, p.precinct as int),
                    (p.layer as int, p.resolution as int, p.component_idx as int, p.precinct as int),
                );
            },
            ProgressionIterator::ResolutionLayer(p) => {
                lemma_key4(
                    (p.resolution as int, p.layer as int, p.component_idx as int, p.precinct as int),
                    (p.resolution as int, p.layer as int, p.component_idx as int, p.precinct as int),
                );
            },
            ProgressionIterator::Position(p) => {
                if p.idx < p.elements@.len() {
                    let e = p.elements@[p.idx as int];
                    lemma_store_key(e, e, p.order);
                }
            },
        }
    }

    /// The least packet at or after the position, if any, after which the
    /// position moves past it.
    pub fn next(&mut self) -> (r: Option<ProgressionData>)
        requires
            old(self).wf(),
        ensures
            final(self).wf(),
            final(self).pos() >= old(self).pos(),
            final(self).same_packets(&*old(self)),
            r matches Some(d) ==> {
                &&& old(self).valid(d)
                &&& old(self).pos() <= old(self).key(d) < final(self).pos()
                &&& old(self).none_within(old(self).pos(), old(self).key(d))
                &&& old(self).none_within(old(self).key(d) + 1, final(self).pos())
                &&& 0 <= final(self).remaining() < old(self).remaining()
            },
            r is None ==> old(self).none_within(old(self).pos(), old(self).end()),
    {
        let r = match self {
            ProgressionIterator::LayerResolution(p) => p.next(),
            ProgressionIterator::ResolutionLayer(p) => p.next(),
            ProgressionIterator::Position(p) => p.next(),
        };
        proof {
            self.lemma_pos_bound();
        }
        r
    }
}

impl<'a> ProgressionIterator<'a> {
    /// A run of `next` until it returns `None`: `outputs[i]` is what the
    /// `i`-th call returned and `positions[i]` the position before it, as
    /// the contract of `next` relates them; at the last position no packet
    /// remains.
    pub open spec fn is_run(&self, positions: Seq<int>, outputs: Seq<ProgressionData>) -> bool {
        &&& positions.len() == outputs.len() + 1
        &&& forall|i: int| 0 <= i < outputs.len() ==> {
            &&& self.valid(#[trigger] outputs[i])
            &&& positions[i] <= self.key(outputs[i]) < positions[i + 1]
            &&& self.none_within(positions[i], self.key(outputs[i]))
            &&& self.none_within(self.key(outputs[i]) + 1, positions[i + 1])
        }
        &&& self.none_within(positions[outputs.len() as int], self.end())
    }

    /// Packets with equal keys are equal, and every key lies below the end.
    pub proof fn lemma_key_injective(&self, a: ProgressionData, b: ProgressionData)
        ensures
            self.key(a) == self.key(b) ==> a == b,
            0 <= self.key(a) < self.end(),
    {
        match self {
            ProgressionIterator::LayerResolution(p) => {
                lemma_key4(
                    (a.layer_num as int, a.resolution as int, a.component as int, a.precinct as int),
                    (b.layer_num as int, b.resolution as int, b.component as int, b.precinct as int),
                );
            },
            ProgressionIterator::ResolutionLayer(p) => {
                lemma_key4(
                    (a.resolution as int, a.layer_num as int, a.component as int, a.precinct as int),
                    (b.resolution as int, b.layer_num as int, b.component as int, b.precinct as int),
                );
            },
            ProgressionIterator::Position(p) => {
                let sa = p.store_of(a);
                let sb = p.store_of(b);
                lemma_store_key(sa, sb, p.order);
                lemma_radix(store_key(sa, p.order), a.layer_num as int, store_key(sb, p.order), b.layer_num as int, 256);
            },
        }
    }

    /// Along a run, the positions increase.
    proof fn lemma_run_positions(&self, positions: Seq<int>, outputs: Seq<ProgressionData>, i: int, j: int)
        requires
            self.is_run(positions, outputs),
            0 <= i <= j <= outputs.len(),
        ensures
            positions[i] <= positions[j],
            i < j ==> self.key(outputs[i]) < positions[j],
        decreases j - i,
    {
        if i < j {
            assert(self.valid(outputs[i]));
            self.lemma_run_positions(positions, outputs, i + 1, j);
        }
    }

    /// A key between the first and the `n`-th position lies between two
    /// adjacent positions.
    proof fn lemma_run_step_of(&self, positions: Seq<int>, outputs: Seq<ProgressionData>, n: int, k: int)
        requires
            self.is_run(positions, outputs),
            0 <= n <= outputs.len(),
            positions[0] <= k < positions[n],
        ensures
            exists|i: int| 0 <= i < n && positions[i] <= k < #[trigger] positions[i + 1],
        decreases n,
    {
        if n > 0 {
            if k < positions[n - 1] {
                self.lemma_run_step_of(positions, outputs, n - 1, k);
                let i = choose|i: int| 0 <= i < n - 1 && positions[i] <= k < #[trigger] positions[i + 1];
                assert(0 <= i < n && positions[i] <= k < positions[i + 1]);
            } else {
                assert(positions[n - 1] <= k < positions[(n - 1) + 1]);
            }
        }
    }

    /// A run of `next` until it returns `None` yields every packet of the
    /// progression at or after the position it starts from, each exactly
    /// once, in increasing order of the key.
    pub proof fn lemma_run_yields_each_packet_once_in_order(&self, positions: Seq<int>, outputs: Seq<ProgressionData>)
        requires
            self.is_run(positions, outputs),
        ensures
            forall|i: int, j: int|
                0 <= i < j < outputs.len() ==> self.key(#[trigger] outputs[i]) < self.key(#[trigger] outputs[j]),
            forall|d: ProgressionData| self.valid(d) && positions[0] <= self.key(d) ==> outputs.contains(d),
    {
        assert forall|i: int, j: int| 0 <= i < j < outputs.len() implies self.key(#[trigger] outputs[i]) < self.key(
            #[trigger] outputs[j],
        ) by {
            self.lemma_run_positions(positions, outputs, i, j);
            assert(self.valid(outputs[j]));
        }
        assert forall|d: ProgressionData| self.valid(d) && positions[0] <= self.key(d) implies outputs.contains(d) by {
            let n = outputs.len() as int;
            self.lemma_key_injective(d, d);
            if self.key(d) >= positions[n] {
                assert(false);
            }
            self.lemma_run_step_of(positions, outputs, n, self.key(d));
            let i = choose|i: int| 0 <= i < n && positions[i] <= self.key(d) < #[trigger] positions[i + 1];
            assert(self.valid(outputs[i]));
            self.lemma_key_injective(d, outputs[i]);
            assert(outputs[i] == d);
        }
    }
}

} // verus!
