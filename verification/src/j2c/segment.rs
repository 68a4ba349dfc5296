//! Parsing of layers and their segments, as specified in Annex B.
use crate::error::{DecodeError, Result, TileError};
use crate::j2c::blocks::{CodeBlock, Layer, Segment};
use crate::j2c::codestream::{at_byte, CodeBlockStyle, ComponentInfo, Header};
use crate::j2c::decode::DecompositionStorage;
use crate::j2c::markers::{EPH, SOP};
use crate::j2c::progression::{ProgressionData, ProgressionIterator};
use crate::j2c::tag_tree::{lemma_node_ok_shape, tag_read, values_kept, TagNode, TagTree};
use crate::j2c::tile::{Tile, TilePart};
use crate::math::{checked_ilog2, floor_log2};
use crate::reader::{stuffed_bits, BitReader};
use core::ops::Range;
use vstd::prelude::*;

verus! {

/// We don't support more than 32-bit precision.
pub const MAX_BITPLANE_COUNT: u8 = 32;

/// The largest number of coding passes of a code-block.
pub const MAX_CODING_PASSES: u8 = 94;

/// The segment of coding pass `pass_idx` under arithmetic coding bypass
/// (Table D.9): the first ten passes form segment 0; after them, each pair
/// of a significance propagation and a magnitude refinement pass forms a
/// raw segment and each cleanup pass a segment of its own.
pub open spec fn bypass_segment(pass_idx: int) -> int {
    if pass_idx < 10 {
        0
    } else {
        1 + 2 * ((pass_idx - 10) / 3) + (if (pass_idx - 10) % 3 == 2 { 1int } else { 0int })
    }
}

/// Calculate the segment index for the given pass in arithmetic decoder
/// bypass (see section D.6, Table D.9).
pub fn segment_idx_for_bypass(pass_idx: u8) -> (r: u8)
    ensures
        r == bypass_segment(pass_idx as int),
{
    if pass_idx < 10 {
        0
    } else {
        1 + (2 * ((pass_idx - 10) / 3)) + (if ((pass_idx - 10) % 3) == 2 { 1 } else { 0 })
    }
}

/// Table D.9 as a law of `bypass_segment`: segments never go back, a
/// significance propagation pass and the magnitude refinement pass after
/// it share a segment, and a cleanup pass after the first ten starts a
/// segment of its own, as does the pass after it.
pub proof fn lemma_bypass_segments(p: int)
    requires
        p >= 0,
    ensures
        bypass_segment(p) <= bypass_segment(p + 1) <= bypass_segment(p) + 1,
        p >= 10 && (p - 10) % 3 == 0 ==> bypass_segment(p + 1) == bypass_segment(p),
        p >= 9 && (p - 9) % 3 == 0 ==> bypass_segment(p + 1) == bypass_segment(p) + 1,
        p >= 10 && (p - 10) % 3 == 2 ==> bypass_segment(p + 1) == bypass_segment(p) + 1,
{
}

/// The number of coding passes that the codeword at bit position `p` of
/// `b` stands for (Table B.4), and the bit position after the codeword.
pub open spec fn coding_passes_spec(b: Seq<u8>, p: int) -> (Option<u8>, int) {
    let (v9, p9) = stuffed_bits(b, p, 9, 0);
    let (v4, p4) = stuffed_bits(b, p, 4, 0);
    let (v2, p2) = stuffed_bits(b, p, 2, 0);
    let (v1, p1) = stuffed_bits(b, p, 1, 0);
    if v9 == Some(0x1ffu32) {
        let (v, q) = stuffed_bits(b, p9, 7, 0);
        match v {
            Some(v) => (Some((v + 37) as u8), q),
            None => (None, q),
        }
    } else if v4 == Some(0x0fu32) {
        let (v, q) = stuffed_bits(b, p4, 5, 0);
        match v {
            Some(v) => (Some((v + 6) as u8), q),
            None => (None, q),
        }
    } else if v4 == Some(0b1110u32) {
        (Some(5), p4)
    } else if v4 == Some(0b1101u32) {
        (Some(4), p4)
    } else if v4 == Some(0b1100u32) {
        (Some(3), p4)
    } else if v2 == Some(0b10u32) {
        (Some(2), p2)
    } else if v1 == Some(0u32) {
        (Some(1), p1)
    } else {
        (None, p)
    }
}

/// The short codewords of Table B.4: a single 0 bit stands for one coding
/// pass, the bits 10 for two, and the four bits 1100, 1101 and 1110 for
/// three, four and five passes, the last two bits counting up from three;
/// each is read whole and nothing after it.
pub proof fn lemma_coding_passes_short(b: Seq<u8>, p: int)
    ensures
        stuffed_bits(b, p, 1, 0).0 == Some(0u32) ==> coding_passes_spec(b, p) == (Some(1u8), stuffed_bits(b, p, 1, 0).1),
        stuffed_bits(b, p, 2, 0).0 == Some(2u32) ==> coding_passes_spec(b, p) == (Some(2u8), stuffed_bits(b, p, 2, 0).1),
        stuffed_bits(b, p, 4, 0).0 is Some && 12 <= stuffed_bits(b, p, 4, 0).0->0 <= 14 ==> coding_passes_spec(b, p) == (
            Some((stuffed_bits(b, p, 4, 0).0->0 - 9) as u8),
            stuffed_bits(b, p, 4, 0).1,
        ),
{
    vstd::arithmetic::power2::lemma2_to64();
    let (v1, q1) = stuffed_bits(b, p, 1, 0);
    let (v2, q2) = stuffed_bits(b, p, 2, 0);
    let (v4, q4) = stuffed_bits(b, p, 4, 0);
    crate::reader::lemma_stuffed_bits_bound(b, p, 1, 0, 0);
    crate::reader::lemma_stuffed_bits_bound(b, p, 2, 0, 0);
    crate::reader::lemma_stuffed_bits_split(b, p, 1, 1, 0);
    crate::reader::lemma_stuffed_bits_split(b, p, 1, 3, 0);
    crate::reader::lemma_stuffed_bits_split(b, p, 1, 8, 0);
    crate::reader::lemma_stuffed_bits_split(b, p, 2, 2, 0);
    crate::reader::lemma_stuffed_bits_split(b, p, 2, 7, 0);
    crate::reader::lemma_stuffed_bits_split(b, p, 4, 5, 0);
    if let Some(x) = v1 {
        crate::reader::lemma_stuffed_bits_range(b, q1, 1, x, 1);
        crate::reader::lemma_stuffed_bits_range(b, q1, 3, x, 1);
        crate::reader::lemma_stuffed_bits_range(b, q1, 8, x, 1);
    }
    if let Some(x) = v2 {
        crate::reader::lemma_stuffed_bits_range(b, q2, 2, x, 2);
        crate::reader::lemma_stuffed_bits_range(b, q2, 7, x, 2);
    }
    if let Some(x) = v4 {
        crate::reader::lemma_stuffed_bits_bound(b, p, 4, 0, 0);
        crate::reader::lemma_stuffed_bits_range(b, q4, 5, x, 4);
    }
}

/// Read the number of coding passes (B.10.6, Table B.4).
fn read_coding_passes(reader: &mut BitReader<'_>) -> (r: Option<u8>)
    requires
        old(reader).wf(),
    ensures
        final(reader).wf(),
        final(reader).bytes() == old(reader).bytes(),
        (r, final(reader).pos()) == coding_passes_spec(old(reader).bytes(), old(reader).pos()),
        r matches Some(n) ==> 1 <= n <= 164,
{
    let mut copy = *reader;
    if copy.peak_bits_with_stuffing(9) == Some(0x1ff) {
        let _ = reader.read_bits_with_stuffing(9);
        let ghost (b, p) = (reader.bytes(), reader.pos());
        let v = match reader.read_bits_with_stuffing(7) {
            Some(v) => v,
            None => return None,
        };
        proof {
            vstd::arithmetic::power2::lemma2_to64();
            crate::reader::lemma_stuffed_bits_bound(b, p, 7, 0, 0);
        }
        Some((v + 37) as u8)
    } else if copy.peak_bits_with_stuffing(4) == Some(0x0f) {
        let _ = reader.read_bits_with_stuffing(4);
        let ghost (b, p) = (reader.bytes(), reader.pos());
        let v = match reader.read_bits_with_stuffing(5) {
            Some(v) => v,
            None => return None,
        };
        proof {
            vstd::arithmetic::power2::lemma2_to64();
            crate::reader::lemma_stuffed_bits_bound(b, p, 5, 0, 0);
        }
        Some((v + 6) as u8)
    } else if copy.peak_bits_with_stuffing(4) == Some(0b1110) {
        let _ = reader.read_bits_with_stuffing(4);
        Some(5)
    } else if copy.peak_bits_with_stuffing(4) == Some(0b1101) {
        let _ = reader.read_bits_with_stuffing(4);
        Some(4)
    } else if copy.peak_bits_with_stuffing(4) == Some(0b1100) {
        let _ = reader.read_bits_with_stuffing(4);
        Some(3)
    } else if copy.peak_bits_with_stuffing(2) == Some(0b10) {
        let _ = reader.read_bits_with_stuffing(2);
        Some(2)
    } else if copy.peak_bits_with_stuffing(1) == Some(0) {
        let _ = reader.read_bits_with_stuffing(1);
        Some(1)
    } else {
        None
    }
}

/// What the packet header parsing keeps of the storage: the tag trees stay
/// well-formed and the code-blocks keep their places in them.
pub open spec fn storage_kept(a: &DecompositionStorage, b: &DecompositionStorage) -> bool {
    &&& b.trees_ok()
    &&& b.precincts == a.precincts
    &&& b.sub_bands == a.sub_bands
    &&& b.decompositions == a.decompositions
    &&& b.tile_decompositions == a.tile_decompositions
    &&& b.coefficients == a.coefficients
    &&& b.code_blocks@.len() == a.code_blocks@.len()
    &&& forall|k: int| 0 <= k < a.code_blocks@.len() ==> (#[trigger] b.code_blocks@[k]).rect == a.code_blocks@[k].rect
    &&& b.layers@.len() == a.layers@.len()
    &&& b.segments@.len() >= a.segments@.len()
}

/// What the packet header of a segment gives: its index, the length of
/// its data and its number of coding passes.
pub open spec fn segment_head(s: Segment) -> (u8, u32, u8) {
    (s.idx, s.data_length, s.coding_pases)
}

/// What reading packet headers changes: the code-blocks, the layers, the
/// segments by their heads (a segment gets its data from the packet body),
/// the tag tree nodes, and the bit position in the header.
pub struct HeaderState {
    pub code_blocks: Seq<CodeBlock>,
    pub layers: Seq<Layer>,
    pub segments: Seq<(u8, u32, u8)>,
    pub nodes: Seq<TagNode>,
    pub pos: int,
}

/// The state of the packet headers held in `st` with the header at bit
/// position `pos`.
pub open spec fn header_state(st: &DecompositionStorage, pos: int) -> HeaderState {
    HeaderState {
        code_blocks: st.code_blocks@,
        layers: st.layers@,
        segments: st.segments@.map_values(|s: Segment| segment_head(s)),
        nodes: st.tag_tree_nodes@,
        pos: pos,
    }
}

/// Reading the length of a codeword segment of `passes` coding passes
/// (B.10.7): a number of `Lblock + floor(log2(passes))` bits. Gives the
/// head of the segment and the bit position after; `None` where the number
/// of bits does not fit or the header runs out.
pub open spec fn read_segment(data: Seq<u8>, pos: int, segment: u8, passes: u8, l_block: u32) -> Option<
    ((u8, u32, u8), int),
> {
    if passes == 0 || l_block + floor_log2(passes as nat) > u32::MAX {
        None
    } else {
        let bits = (l_block + floor_log2(passes as nat)) as u32;
        let (v, p) = stuffed_bits(data, pos, (bits as u8) as nat, 0);
        match v {
            None => None,
            Some(len) => Some(((segment, len, passes), p)),
        }
    }
}

/// The segment of a coding pass: the pass itself when each pass is
/// terminated, the segment of Table D.9 under arithmetic coding bypass,
/// and otherwise one segment per layer.
pub open spec fn segment_index(style: CodeBlockStyle, pass: u8, non_empty_layer_count: u8) -> u8 {
    if style.termination_on_each_pass {
        pass
    } else if style.selective_arithmetic_coding_bypass {
        bypass_segment(pass as int) as u8
    } else {
        non_empty_layer_count
    }
}

/// Splitting the coding passes `pass..cumulative` that a packet adds to a
/// code-block into segments (B.10.7): passes of one segment index form a
/// segment, whose length is read when the next segment starts or the
/// passes end. `last` is the segment being formed and `count` its number
/// of coding passes so far.
pub open spec fn split_segments(
    data: Seq<u8>,
    pos: int,
    heads: Seq<(u8, u32, u8)>,
    style: CodeBlockStyle,
    non_empty_layer_count: u8,
    l_block: u32,
    pass: int,
    cumulative: int,
    last: u8,
    count: u8,
) -> Option<(Seq<(u8, u32, u8)>, int)>
    decreases cumulative - pass,
{
    if pass >= cumulative {
        if count > 0 {
            match read_segment(data, pos, last, count, l_block) {
                None => None,
                Some((h, p)) => Some((heads.push(h), p)),
            }
        } else {
            Some((heads, pos))
        }
    } else {
        let seg = segment_index(style, pass as u8, non_empty_layer_count);
        if seg != last {
            match read_segment(data, pos, last, count, l_block) {
                None => None,
                Some((h, p)) => split_segments(
                    data,
                    p,
                    heads.push(h),
                    style,
                    non_empty_layer_count,
                    l_block,
                    pass + 1,
                    cumulative,
                    seg,
                    1,
                ),
            }
        } else {
            split_segments(
                data,
                pos,
                heads,
                style,
                non_empty_layer_count,
                l_block,
                pass + 1,
                cumulative,
                last,
                (count + 1) as u8,
            )
        }
    }
}

/// The increment of Lblock (B.10.7.1): the number of 1 bits before the
/// next 0 bit, counted from `k`; `None` where the header runs out or the
/// count overflows.
pub open spec fn lblock_bits(data: Seq<u8>, pos: int, k: u32) -> (Option<u32>, int)
    decreases u32::MAX - k,
{
    let (b, p) = stuffed_bits(data, pos, 1, 0);
    match b {
        None => (None, p),
        Some(v) => if v == 1 {
            if k == u32::MAX {
                (None, p)
            } else {
                lblock_bits(data, p, (k + 1) as u32)
            }
        } else {
            (Some(k), p)
        },
    }
}

/// Whether code-block `cb` is included in layer `layer` (B.10.4): after
/// its first inclusion by a single bit, before it by the inclusion tag
/// tree, read as far as the layer. Gives the answer, the nodes and the bit
/// position after.
pub open spec fn inclusion(hs: HeaderState, data: Seq<u8>, cb: int, layer: u8, tree: TagTree) -> (
    Option<bool>,
    Seq<TagNode>,
    int,
) {
    let c = hs.code_blocks[cb];
    if c.has_been_included {
        let (b, p) = stuffed_bits(data, hs.pos, 1, 0);
        (
            match b {
                Some(v) => Some(v == 1),
                None => None,
            },
            hs.nodes,
            p,
        )
    } else {
        let (v, n, p) = tag_read(
            hs.nodes,
            tree.root as int,
            c.x_idx as int,
            c.y_idx as int,
            data,
            hs.pos,
            0,
            (layer + 1) as u32,
            hs.nodes[tree.root as int].level as nat,
        );
        (
            match v {
                Some(v) => Some(v <= layer as u32),
                None => None,
            },
            n,
            p,
        )
    }
}

/// The number of missing most significant bitplanes of a code-block
/// (B.10.5): read from the zero bitplane tag tree when it is first
/// included, else kept.
pub open spec fn missing_bitplanes(c: CodeBlock, nodes: Seq<TagNode>, data: Seq<u8>, pos: int, tree: TagTree) -> (
    Option<u8>,
    Seq<TagNode>,
    int,
) {
    if !c.has_been_included {
        let (v, n, p) = tag_read(
            nodes,
            tree.root as int,
            c.x_idx as int,
            c.y_idx as int,
            data,
            pos,
            0,
            u32::MAX,
            nodes[tree.root as int].level as nat,
        );
        (
            match v {
                Some(v) => Some(v as u8),
                None => None,
            },
            n,
            p,
        )
    } else {
        (Some(c.missing_bit_planes), nodes, pos)
    }
}

/// The packet header of code-block `cb` in layer `layer` (B.10.4 to
/// B.10.7): whether it is included; if so, its missing bitplanes when it
/// is included for the first time, its number of new coding passes, the
/// increment of Lblock, and the lengths of its new segments, which the
/// layer records. `None` where the header runs out or a value is out of
/// range.
pub open spec fn header_code_block(
    hs: HeaderState,
    data: Seq<u8>,
    cb: int,
    layer: u8,
    style: CodeBlockStyle,
    inclusion_tree: TagTree,
    zero_tree: TagTree,
) -> Option<HeaderState> {
    let c = hs.code_blocks[cb];
    match inclusion(hs, data, cb, layer, inclusion_tree) {
        (None, _, _) => None,
        (Some(included), n1, p1) => if !included {
            Some(HeaderState { nodes: n1, pos: p1, ..hs })
        } else if c.layers.start > c.layers.end || c.layers.end > hs.layers.len() || layer >= c.layers.end
            - c.layers.start {
            None
        } else {
            match missing_bitplanes(c, n1, data, p1, zero_tree) {
                (None, _, _) => None,
                (Some(missing), n2, p2) => match coding_passes_spec(data, p2) {
                    (None, _) => None,
                    (Some(added), p3) => match lblock_bits(data, p3, 0) {
                        (None, _) => None,
                        (Some(k), p4) => if c.l_block + k > u32::MAX || c.number_of_coding_passes + added
                            > MAX_CODING_PASSES {
                            None
                        } else {
                            let l_block = (c.l_block + k) as u32;
                            let cumulative = (c.number_of_coding_passes + added) as u8;
                            match split_segments(
                                data,
                                p4,
                                hs.segments,
                                style,
                                c.non_empty_layer_count,
                                l_block,
                                c.number_of_coding_passes as int,
                                cumulative as int,
                                segment_index(style, c.number_of_coding_passes, c.non_empty_layer_count),
                                0,
                            ) {
                                None => None,
                                Some((segments, p5)) => if c.non_empty_layer_count == 255 {
                                    None
                                } else {
                                    let c2 = CodeBlock {
                                        missing_bit_planes: missing,
                                        has_been_included: true,
                                        l_block: l_block,
                                        number_of_coding_passes: cumulative,
                                        non_empty_layer_count: (c.non_empty_layer_count + 1) as u8,
                                        ..c
                                    };
                                    let range = Range { start: hs.segments.len() as usize, end: segments.len() as usize };
                                    Some(
                                        HeaderState {
                                            code_blocks: hs.code_blocks.update(cb, c2),
                                            layers: hs.layers.update(
                                                c.layers.start + layer,
                                                Layer { segments: Some(range) },
                                            ),
                                            segments: segments,
                                            nodes: n2,
                                            pos: p5,
                                        },
                                    )
                                },
                            }
                        },
                    },
                },
            }
        },
    }
}

/// The packet headers of the code-blocks `cb..cb_end` of a precinct.
pub open spec fn header_from(
    hs: HeaderState,
    data: Seq<u8>,
    cb: int,
    cb_end: int,
    layer: u8,
    style: CodeBlockStyle,
    inclusion_tree: TagTree,
    zero_tree: TagTree,
) -> Option<HeaderState>
    decreases cb_end - cb,
{
    if cb >= cb_end {
        Some(hs)
    } else {
        match header_code_block(hs, data, cb, layer, style, inclusion_tree, zero_tree) {
            None => None,
            Some(h) => header_from(h, data, cb + 1, cb_end, layer, style, inclusion_tree, zero_tree),
        }
    }
}

/// The packet header of precinct `precinct` of sub-band `sub_band_idx` in
/// layer `layer`, read from bit position `pos` of `data`: `None` where the
/// storage does not hold the precinct.
pub open spec fn packet_header(
    st: &DecompositionStorage,
    data: Seq<u8>,
    pos: int,
    sub_band_idx: int,
    precinct: int,
    layer: u8,
    style: CodeBlockStyle,
) -> Option<HeaderState> {
    if sub_band_idx >= st.sub_bands@.len() {
        None
    } else {
        let sb = st.sub_bands@[sub_band_idx];
        if sb.precincts.start > sb.precincts.end || sb.precincts.end > st.precincts@.len() || precinct >= sb.precincts.end
            - sb.precincts.start {
            None
        } else {
            let p = st.precincts@[sb.precincts.start + precinct];
            header_from(
                header_state(st, pos),
                data,
                p.code_blocks.start as int,
                p.code_blocks.end as int,
                layer,
                style,
                p.code_inclusion_tree,
                p.zero_bitplane_tree,
            )
        }
    }
}

/// The storage holds the header state `hs`: the segments before `n` are
/// kept, the others have no data yet.
pub open spec fn holds_header(a: &DecompositionStorage, b: &DecompositionStorage, n: int, hs: HeaderState) -> bool {
    &&& header_state(b, hs.pos) == hs
    &&& n <= b.segments@.len()
    &&& forall|i: int| 0 <= i < n ==> #[trigger] b.segments@[i] == a.segments@[i]
    &&& forall|i: int| n <= i < b.segments@.len() ==> (#[trigger] b.segments@[i]).data@.len() == 0
}

/// Read the segments that a packet contributes to the code-blocks of one
/// precinct of a sub-band (B.10.4 to B.10.7).
fn resolve_segments(
    sub_band_idx: usize,
    progression_data: &ProgressionData,
    reader: &mut BitReader<'_>,
    storage: &mut DecompositionStorage<'_>,
    component_info: &ComponentInfo,
) -> (r: Option<()>)
    requires
        old(reader).wf(),
        old(storage).trees_ok(),
    ensures
        final(reader).wf(),
        final(reader).bytes() == old(reader).bytes(),
        storage_kept(&*old(storage), &*final(storage)),
        match packet_header(
            &*old(storage),
            old(reader).bytes(),
            old(reader).pos(),
            sub_band_idx as int,
            progression_data.precinct as int,
            progression_data.layer_num,
            component_info.coding_style.parameters.code_block_style,
        ) {
            None => r is None,
            Some(hs) => {
                &&& r is Some
                &&& final(reader).pos() == hs.pos
                &&& holds_header(&*old(storage), &*final(storage), old(storage).segments@.len() as int, hs)
            },
        },
{
    if sub_band_idx >= storage.sub_bands.len() {
        return None;
    }
    let p_start = storage.sub_bands[sub_band_idx].precincts.start;
    let p_end = storage.sub_bands[sub_band_idx].precincts.end;
    if p_start > p_end || p_end > storage.precincts.len() || progression_data.precinct >= (p_end - p_start) as u64 {
        return None;
    }
    let p_idx = p_start + progression_data.precinct as usize;
    let inclusion_tree = storage.precincts[p_idx].code_inclusion_tree;
    let zero_bitplane_tree = storage.precincts[p_idx].zero_bitplane_tree;
    let cb_start = storage.precincts[p_idx].code_blocks.start;
    let cb_end = storage.precincts[p_idx].code_blocks.end;
    let layer_num = progression_data.layer_num;
    let style = component_info.code_block_style();
    let ghost s0 = *storage;
    let ghost data = reader.bytes();
    let ghost goal = packet_header(&s0, data, reader.pos(), sub_band_idx as int, progression_data.precinct as int, layer_num, style);

    let mut cb_idx = cb_start;
    while cb_idx < cb_end
        invariant
            reader.wf(),
            reader.bytes() == old(reader).bytes(),
            data == old(reader).bytes(),
            storage_kept(&s0, &*storage),
            s0 == *old(storage),
            p_idx < storage.precincts@.len(),
            inclusion_tree == storage.precincts@[p_idx as int].code_inclusion_tree,
            zero_bitplane_tree == storage.precincts@[p_idx as int].zero_bitplane_tree,
            cb_start == storage.precincts@[p_idx as int].code_blocks.start,
            cb_end == storage.precincts@[p_idx as int].code_blocks.end,
            cb_start <= cb_idx,
            layer_num == progression_data.layer_num,
            style == component_info.coding_style.parameters.code_block_style,
            goal == packet_header(
                &s0,
                data,
                old(reader).pos(),
                sub_band_idx as int,
                progression_data.precinct as int,
                layer_num,
                style,
            ),
            goal == header_from(
                header_state(&*storage, reader.pos()),
                data,
                cb_idx as int,
                cb_end as int,
                layer_num,
                style,
                inclusion_tree,
                zero_bitplane_tree,
            ),
            s0.segments@.len() <= storage.segments@.len(),
            forall|i: int| 0 <= i < s0.segments@.len() ==> #[trigger] storage.segments@[i] == s0.segments@[i],
            forall|i: int| s0.segments@.len() <= i < storage.segments@.len() ==> (#[trigger] storage.segments@[i]).data@.len() == 0,
        decreases cb_end - cb_idx,
    {
        proof {
            assert(storage.precincts@[p_idx as int] == storage.precincts@[p_idx as int]);
        }
        let ghost st0 = *storage;
        match resolve_code_block(cb_idx, layer_num, &style, inclusion_tree, zero_bitplane_tree, reader, storage) {
            Some(()) => {},
            None => return None,
        }
        proof {
            assert forall|i: int| 0 <= i < s0.segments@.len() implies #[trigger] storage.segments@[i] == s0.segments@[i] by {
                assert(storage.segments@[i] == st0.segments@[i]);
            }
            assert forall|i: int| s0.segments@.len() <= i < storage.segments@.len() implies (
            #[trigger] storage.segments@[i]).data@.len() == 0 by {
                if i < st0.segments@.len() {
                    assert(storage.segments@[i] == st0.segments@[i]);
                }
            }
        }
        cb_idx = cb_idx + 1;
    }

    Some(())
}

/// The segments of `b` are those of `a` followed by new ones without data.
pub open spec fn segments_added(a: &DecompositionStorage, b: &DecompositionStorage) -> bool {
    &&& a.segments@.len() <= b.segments@.len()
    &&& forall|i: int| 0 <= i < a.segments@.len() ==> #[trigger] b.segments@[i] == a.segments@[i]
    &&& forall|i: int| a.segments@.len() <= i < b.segments@.len() ==> (#[trigger] b.segments@[i]).data@.len() == 0
}

/// Read the packet header of one code-block of a precinct whose tag trees
/// are `inclusion_tree` and `zero_bitplane_tree` (B.10.4 to B.10.7).
fn resolve_code_block(
    cb_idx: usize,
    layer_num: u8,
    style: &CodeBlockStyle,
    inclusion_tree: TagTree,
    zero_bitplane_tree: TagTree,
    reader: &mut BitReader<'_>,
    storage: &mut DecompositionStorage<'_>,
) -> (r: Option<()>)
    requires
        old(reader).wf(),
        old(storage).trees_ok(),
        cb_idx < old(storage).code_blocks@.len(),
        inclusion_tree.wf(old(storage).tag_tree_nodes@),
        zero_bitplane_tree.wf(old(storage).tag_tree_nodes@),
        old(storage).code_blocks@[cb_idx as int].x_idx < inclusion_tree.width,
        old(storage).code_blocks@[cb_idx as int].y_idx < inclusion_tree.height,
        old(storage).code_blocks@[cb_idx as int].x_idx < zero_bitplane_tree.width,
        old(storage).code_blocks@[cb_idx as int].y_idx < zero_bitplane_tree.height,
        exists|p: int|
            0 <= p < old(storage).precincts@.len() && (#[trigger] old(storage).precincts@[p]).code_inclusion_tree
                == inclusion_tree && old(storage).precincts@[p].zero_bitplane_tree == zero_bitplane_tree,
    ensures
        final(reader).wf(),
        final(reader).bytes() == old(reader).bytes(),
        storage_kept(&*old(storage), &*final(storage)),
        segments_added(&*old(storage), &*final(storage)),
        match header_code_block(
            header_state(&*old(storage), old(reader).pos()),
            old(reader).bytes(),
            cb_idx as int,
            layer_num,
            *style,
            inclusion_tree,
            zero_bitplane_tree,
        ) {
            None => r is None,
            Some(hs) => r is Some && header_state(&*final(storage), final(reader).pos()) == hs,
        },
{
    let ghost s0 = *storage;
    let ghost data = reader.bytes();
    let ghost hs0 = header_state(&*storage, reader.pos());
    let x_idx = storage.code_blocks[cb_idx].x_idx;
    let y_idx = storage.code_blocks[cb_idx].y_idx;
    let has_been_included = storage.code_blocks[cb_idx].has_been_included;
    let mut inclusion_tree = inclusion_tree;
    let mut zero_bitplane_tree = zero_bitplane_tree;

    // B.10.4 Code-block inclusion
    let is_included = if has_been_included {
        // "For code-blocks that have been included in a previous packet,
        // a single bit is used to represent the information, where a 1
        // means that the code-block is included in this layer and a 0 means
        // that it is not."
        match reader.read_stuffed_bit() {
            Some(b) => b == 1,
            None => return None,
        }
    } else {
        // "For code-blocks that have not been previously included in any packet,
        // this information is signalled with a separate tag tree code for each precinct
        // as confined to a sub-band."
        let ghost sb = *storage;
        let ghost n0 = storage.tag_tree_nodes@;
        let v = inclusion_tree.read(x_idx, y_idx, reader, layer_num as u32 + 1, &mut storage.tag_tree_nodes);
        proof {
            lemma_trees_kept(&sb, n0, &*storage);
        }
        match v {
            Some(v) => v <= layer_num as u32,
            None => return None,
        }
    };

    if !is_included {
        return Some(());
    }

    let l_start = storage.code_blocks[cb_idx].layers.start;
    let l_end = storage.code_blocks[cb_idx].layers.end;
    if l_start > l_end || l_end > storage.layers.len() || layer_num as usize >= l_end - l_start {
        return None;
    }
    let layer_idx = l_start + layer_num as usize;

    let included_first_time = is_included && !has_been_included;
    let ghost n1 = storage.tag_tree_nodes@;
    let ghost p1 = reader.pos();
    proof {
        lemma_node_ok_shape(s0.tag_tree_nodes@, n1, s0.tag_tree_nodes@[zero_bitplane_tree.root as int], n1[zero_bitplane_tree.root as int]);
    }

    // B.10.5 Zero bit-plane information
    if included_first_time {
        let ghost sb = *storage;
        let ghost n0 = storage.tag_tree_nodes@;
        let v = zero_bitplane_tree.read(x_idx, y_idx, reader, u32::MAX, &mut storage.tag_tree_nodes);
        proof {
            lemma_trees_kept(&sb, n0, &*storage);
        }
        let missing = match v {
            Some(v) => v,
            None => return None,
        };
        let ghost sb = *storage;
        storage.code_blocks[cb_idx].missing_bit_planes = missing as u8;
        proof {
            lemma_code_block_fields(&sb, &*storage);
        }
    }
    let ghost sb = *storage;
    storage.code_blocks[cb_idx].has_been_included = true;
    proof {
        lemma_code_block_fields(&sb, &*storage);
    }

    // B.10.6 Number of coding passes
    let ghost p2 = reader.pos();
    let ghost n2 = storage.tag_tree_nodes@;
    let ghost missing_now = storage.code_blocks@[cb_idx as int].missing_bit_planes;
    let added_coding_passes = match read_coding_passes(reader) {
        Some(n) => n,
        None => return None,
    };
    let ghost p3 = reader.pos();

    let k = match read_lblock_increment(reader) {
        Some(k) => k,
        None => return None,
    };
    let ghost p4 = reader.pos();

    let l_block = match storage.code_blocks[cb_idx].l_block.checked_add(k) {
        Some(l) => l,
        None => return None,
    };
    let ghost sb = *storage;
    storage.code_blocks[cb_idx].l_block = l_block;
    proof {
        lemma_code_block_fields(&sb, &*storage);
    }

    let previous_layers_passes = storage.code_blocks[cb_idx].number_of_coding_passes;
    let cumulative_passes = match previous_layers_passes.checked_add(added_coding_passes) {
        Some(c) => c,
        None => return None,
    };
    if cumulative_passes > MAX_CODING_PASSES {
        return None;
    }
    let non_empty_layer_count = storage.code_blocks[cb_idx].non_empty_layer_count;

    let start = storage.segments.len();
    proof {
        assert(storage.segments@.map_values(|s: Segment| segment_head(s)) == hs0.segments);
    }
    match read_segments(style, non_empty_layer_count, l_block, previous_layers_passes, cumulative_passes, reader, storage) {
        Some(()) => {},
        None => return None,
    }
    let ghost p5 = reader.pos();
    let ghost heads = storage.segments@.map_values(|s: Segment| segment_head(s));

    let end = storage.segments.len();
    let non_empty = match non_empty_layer_count.checked_add(1) {
        Some(n) => n,
        None => return None,
    };
    storage.layers[layer_idx].segments = Some(Range { start, end });
    let ghost sb = *storage;
    storage.code_blocks[cb_idx].number_of_coding_passes = cumulative_passes;
    proof {
        lemma_code_block_fields(&sb, &*storage);
    }
    let ghost sc = *storage;
    storage.code_blocks[cb_idx].non_empty_layer_count = non_empty;
    proof {
        lemma_code_block_fields(&sc, &*storage);
        assert(inclusion(hs0, data, cb_idx as int, layer_num, inclusion_tree) == (Some(true), n1, p1));
        assert(missing_bitplanes(hs0.code_blocks[cb_idx as int], n1, data, p1, zero_bitplane_tree) == (Some(missing_now), n2, p2));
        assert(coding_passes_spec(data, p2) == (Some(added_coding_passes), p3));
        assert(lblock_bits(data, p3, 0) == (Some(k), p4));
        let c = hs0.code_blocks[cb_idx as int];
        let c2 = CodeBlock {
            missing_bit_planes: missing_now,
            has_been_included: true,
            l_block: l_block,
            number_of_coding_passes: cumulative_passes,
            non_empty_layer_count: non_empty,
            ..c
        };
        assert(storage.code_blocks@ =~= hs0.code_blocks.update(cb_idx as int, c2));
        assert(storage.layers@ =~= hs0.layers.update(
            layer_idx as int,
            Layer { segments: Some(Range { start: hs0.segments.len() as usize, end: heads.len() as usize }) },
        ));
        assert(storage.tag_tree_nodes@ == n2);
        assert(header_code_block(hs0, data, cb_idx as int, layer_num, *style, inclusion_tree, zero_bitplane_tree) == Some(
            header_state(&*storage, reader.pos()),
        ));
    }
    Some(())
}

/// Read the increment of Lblock (B.10.7.1): the 1 bits before the next 0
/// bit.
fn read_lblock_increment(reader: &mut BitReader<'_>) -> (r: Option<u32>)
    requires
        old(reader).wf(),
    ensures
        final(reader).wf(),
        final(reader).bytes() == old(reader).bytes(),
        (r, final(reader).pos()) == lblock_bits(old(reader).bytes(), old(reader).pos(), 0),
{
    let ghost data = reader.bytes();
    let ghost p0 = reader.pos();
    let mut k: u32 = 0;
    loop
        invariant_except_break
            lblock_bits(data, p0, 0) == lblock_bits(data, reader.pos(), k),
        invariant
            reader.wf(),
            reader.bytes() == old(reader).bytes(),
            data == old(reader).bytes(),
            p0 == old(reader).pos(),
        ensures
            lblock_bits(data, p0, 0) == (Some(k), reader.pos()),
        decreases reader.bytes().len() * 8 - reader.pos(),
    {
        match reader.read_stuffed_bit() {
            Some(1) => {
                proof {
                    reveal_with_fuel(crate::reader::stuffed_bits, 3);
                }
                if k == u32::MAX {
                    return None;
                }
                k = k + 1;
            },
            Some(_) => break,
            None => return None,
        }
    }
    Some(k)
}

/// Read the lengths of the segments that the coding passes
/// `previous..cumulative` of a code-block form, and record them.
fn read_segments(
    style: &CodeBlockStyle,
    non_empty_layer_count: u8,
    l_block: u32,
    previous: u8,
    cumulative: u8,
    reader: &mut BitReader<'_>,
    storage: &mut DecompositionStorage<'_>,
) -> (r: Option<()>)
    requires
        old(reader).wf(),
        old(storage).trees_ok(),
        cumulative <= MAX_CODING_PASSES,
    ensures
        final(reader).wf(),
        final(reader).bytes() == old(reader).bytes(),
        storage_kept(&*old(storage), &*final(storage)),
        segments_added(&*old(storage), &*final(storage)),
        final(storage).code_blocks == old(storage).code_blocks,
        final(storage).layers == old(storage).layers,
        final(storage).tag_tree_nodes == old(storage).tag_tree_nodes,
        match split_segments(
            old(reader).bytes(),
            old(reader).pos(),
            old(storage).segments@.map_values(|s: Segment| segment_head(s)),
            *style,
            non_empty_layer_count,
            l_block,
            previous as int,
            cumulative as int,
            segment_index(*style, previous, non_empty_layer_count),
            0,
        ) {
            None => r is None,
            Some((heads, p)) => {
                &&& r is Some
                &&& final(reader).pos() == p
                &&& final(storage).segments@.map_values(|s: Segment| segment_head(s)) == heads
            },
        },
{
    let ghost s0 = *storage;
    let ghost data = reader.bytes();
    let mut last_segment = segment_idx(style, previous, non_empty_layer_count);
    let mut coding_passes_for_segment: u8 = 0;
    let mut coding_pass = previous;
    let ghost split = split_segments(
        data,
        reader.pos(),
        storage.segments@.map_values(|s: Segment| segment_head(s)),
        *style,
        non_empty_layer_count,
        l_block,
        previous as int,
        cumulative as int,
        last_segment,
        0,
    );
    while coding_pass < cumulative
        invariant
            reader.wf(),
            reader.bytes() == old(reader).bytes(),
            data == old(reader).bytes(),
            storage_kept(&s0, &*storage),
            s0 == *old(storage),
            segments_added(&s0, &*storage),
            storage.code_blocks == s0.code_blocks,
            storage.layers == s0.layers,
            storage.tag_tree_nodes == s0.tag_tree_nodes,
            coding_passes_for_segment <= coding_pass,
            cumulative <= MAX_CODING_PASSES,
            split == split_segments(
                data,
                old(reader).pos(),
                s0.segments@.map_values(|s: Segment| segment_head(s)),
                *style,
                non_empty_layer_count,
                l_block,
                previous as int,
                cumulative as int,
                segment_index(*style, previous, non_empty_layer_count),
                0,
            ),
            split == split_segments(
                data,
                reader.pos(),
                storage.segments@.map_values(|s: Segment| segment_head(s)),
                *style,
                non_empty_layer_count,
                l_block,
                coding_pass as int,
                cumulative as int,
                last_segment,
                coding_passes_for_segment,
            ),
        decreases cumulative - coding_pass,
    {
        let segment = segment_idx(style, coding_pass, non_empty_layer_count);
        if segment != last_segment {
            let ghost before = *storage;
            match push_segment(last_segment, coding_passes_for_segment, l_block, reader, storage) {
                Some(()) => {},
                None => return None,
            }
            proof {
                assert(storage.segments@ =~= before.segments@.push(storage.segments@.last()));
                assert(storage.segments@.map_values(|s: Segment| segment_head(s)) =~= before.segments@.map_values(
                    |s: Segment| segment_head(s),
                ).push(segment_head(storage.segments@.last())));
                assert forall|i: int| 0 <= i < s0.segments@.len() implies #[trigger] storage.segments@[i] == s0.segments@[i] by {
                    assert(storage.segments@[i] == before.segments@[i]);
                }
                assert forall|i: int| s0.segments@.len() <= i < storage.segments@.len() implies (
                #[trigger] storage.segments@[i]).data@.len() == 0 by {
                    if i < before.segments@.len() {
                        assert(storage.segments@[i] == before.segments@[i]);
                    }
                }
            }
            last_segment = segment;
            coding_passes_for_segment = 1;
        } else {
            coding_passes_for_segment = coding_passes_for_segment + 1;
        }
        coding_pass = coding_pass + 1;
    }

    // Flush the final segment if applicable.
    if coding_passes_for_segment > 0 {
        let ghost before = *storage;
        match push_segment(last_segment, coding_passes_for_segment, l_block, reader, storage) {
            Some(()) => {},
            None => return None,
        }
        proof {
            assert(storage.segments@ =~= before.segments@.push(storage.segments@.last()));
            assert(storage.segments@.map_values(|s: Segment| segment_head(s)) =~= before.segments@.map_values(
                |s: Segment| segment_head(s),
            ).push(segment_head(storage.segments@.last())));
            assert forall|i: int| 0 <= i < s0.segments@.len() implies #[trigger] storage.segments@[i] == s0.segments@[i] by {
                assert(storage.segments@[i] == before.segments@[i]);
            }
            assert forall|i: int| s0.segments@.len() <= i < storage.segments@.len() implies (
            #[trigger] storage.segments@[i]).data@.len() == 0 by {
                if i < before.segments@.len() {
                    assert(storage.segments@[i] == before.segments@[i]);
                }
            }
        }
    }
    Some(())
}

/// The segment of a coding pass: the pass itself when each pass is
/// terminated, the segment of Table D.9 under arithmetic coding bypass,
/// and otherwise one segment per layer.
fn segment_idx(style: &crate::j2c::codestream::CodeBlockStyle, pass_idx: u8, non_empty_layer_count: u8) -> (r: u8)
    ensures
        r == segment_index(*style, pass_idx, non_empty_layer_count),
        style.termination_on_each_pass ==> r == pass_idx,
        !style.termination_on_each_pass && style.selective_arithmetic_coding_bypass ==> r == bypass_segment(
            pass_idx as int,
        ),
        !style.termination_on_each_pass && !style.selective_arithmetic_coding_bypass ==> r == non_empty_layer_count,
{
    if style.termination_on_each_pass {
        // If we terminate on each pass, the segment is just the index
        // of the pass.
        pass_idx
    } else if style.selective_arithmetic_coding_bypass {
        // Use the formula derived from the table in the spec.
        segment_idx_for_bypass(pass_idx)
    } else {
        // If none of the above flags is activated, the number of
        // segments just corresponds to the number of layers.
        non_empty_layer_count
    }
}

/// Read the length of a codeword segment and record the segment (B.10.7).
fn push_segment(
    segment: u8,
    coding_passes_for_segment: u8,
    l_block: u32,
    reader: &mut BitReader<'_>,
    storage: &mut DecompositionStorage<'_>,
) -> (r: Option<()>)
    requires
        old(reader).wf(),
        old(storage).trees_ok(),
    ensures
        final(reader).wf(),
        final(reader).bytes() == old(reader).bytes(),
        storage_kept(&*old(storage), &*final(storage)),
        r is Some ==> final(storage).segments@.len() == old(storage).segments@.len() + 1,
        r is None ==> *final(storage) == *old(storage),
        match read_segment(old(reader).bytes(), old(reader).pos(), segment, coding_passes_for_segment, l_block) {
            None => r is None,
            Some((h, p)) => {
                &&& r is Some
                &&& final(reader).pos() == p
                &&& final(storage).segments@.drop_last() == old(storage).segments@
                &&& segment_head(final(storage).segments@.last()) == h
                &&& final(storage).segments@.last().data@.len() == 0
                &&& final(storage).code_blocks == old(storage).code_blocks
                &&& final(storage).layers == old(storage).layers
                &&& final(storage).tag_tree_nodes == old(storage).tag_tree_nodes
            },
        },
{
    // "A codeword segment is the number of bytes contributed to a packet by a
    // code-block. The length of a codeword segment is represented by a binary number of length:
    // bits = Lblock + floor(log_2(coding passes added))"
    let log = match checked_ilog2(coding_passes_for_segment as u32) {
        Some(l) => l,
        None => return None,
    };
    let length_bits = match l_block.checked_add(log) {
        Some(b) => b,
        None => return None,
    };
    let length = match reader.read_bits_with_stuffing(length_bits as u8) {
        Some(l) => l,
        None => return None,
    };
    storage.segments.push(Segment {
        idx: segment,
        data_length: length,
        coding_pases: coding_passes_for_segment,
        // Will be set later.
        data: &[],
    });
    Some(())
}

/// Reading a tag tree keeps the storage's trees well-formed.
proof fn lemma_trees_kept(
    s0: &DecompositionStorage,
    n0: Seq<crate::j2c::tag_tree::TagNode>,
    s1: &DecompositionStorage,
)
    requires
        s0.trees_ok(),
        s0.tag_tree_nodes@ == n0,
        values_kept(n0, s1.tag_tree_nodes@),
        s1.precincts == s0.precincts,
        s1.code_blocks == s0.code_blocks,
    ensures
        s1.trees_ok(),
{
    assert forall|p: int| 0 <= p < s1.precincts@.len() implies {
        let pr = #[trigger] s1.precincts@[p];
        &&& pr.code_inclusion_tree.wf(s1.tag_tree_nodes@)
        &&& pr.zero_bitplane_tree.wf(s1.tag_tree_nodes@)
    } by {
        let pr = s1.precincts@[p];
        let r1 = pr.code_inclusion_tree.root as int;
        let r2 = pr.zero_bitplane_tree.root as int;
        lemma_node_ok_shape(n0, s1.tag_tree_nodes@, n0[r1], s1.tag_tree_nodes@[r1]);
        lemma_node_ok_shape(n0, s1.tag_tree_nodes@, n0[r2], s1.tag_tree_nodes@[r2]);
    }
}

/// Updating the packet header state of code-blocks keeps their places in
/// the trees.
proof fn lemma_code_block_fields(s0: &DecompositionStorage, s1: &DecompositionStorage)
    requires
        s0.trees_ok(),
        s1.precincts == s0.precincts,
        s1.code_blocks@.len() == s0.code_blocks@.len(),
        forall|k: int| 0 <= k < s0.code_blocks@.len() ==> (#[trigger] s1.code_blocks@[k]).x_idx == s0.code_blocks@[k].x_idx
            && s1.code_blocks@[k].y_idx == s0.code_blocks@[k].y_idx && s1.code_blocks@[k].rect == s0.code_blocks@[k].rect,
        forall|p: int| 0 <= p < s0.precincts@.len() ==> {
            let pr = #[trigger] s0.precincts@[p];
            &&& pr.code_inclusion_tree.wf(s1.tag_tree_nodes@)
            &&& pr.zero_bitplane_tree.wf(s1.tag_tree_nodes@)
        },
    ensures
        s1.trees_ok(),
{
}

/// The sizes of the data and packed packet headers of a tile-part can be
/// counted in bits.
pub open spec fn tile_part_fits(tp: TilePart) -> bool {
    &&& tp.data@.len() <= usize::MAX / 8
    &&& tp.packed_headers matches Some(h) ==> h@.len() <= usize::MAX / 8
}

/// A tile-part holds no packet: its packed packet headers, or without
/// them its data, are empty.
pub open spec fn tile_part_empty(tp: TilePart) -> bool {
    match tp.packed_headers {
        Some(h) => h@.len() == 0,
        None => tp.data@.len() == 0,
    }
}

/// Reading the packets of tile-part `tp` of the tile stopped short of its
/// end: the packets before the one that could not be read were read one
/// after the other from the start of the tile-part, from storage `a` and
/// progression `pa` on, and the storage `b` left keeps the structure of
/// the storage they gave.
pub open spec fn packets_cut(a: DecompositionStorage, b: DecompositionStorage, pa: ProgressionIterator, tile: &Tile, tp: TilePart) -> bool {
    exists|
        sts: Seq<DecompositionStorage>,
        prs: Seq<ProgressionIterator>,
        ds: Seq<ProgressionData>,
        hps: Seq<int>,
        bps: Seq<int>,
    |
        #[trigger] packets_read(sts, prs, ds, hps, bps, tile, packet_headers_of(tp), tp.data@, tp.packed_headers is Some)
            && sts[0] == a && prs[0] == pa && hps[0] == 0 && bps[0] == 0 && storage_kept(&sts.last(), &b)
}

/// Where the packet headers of a tile-part are read from: its packed
/// packet headers, or without them its data.
pub open spec fn packet_headers_of(tp: TilePart) -> Seq<u8> {
    match tp.packed_headers {
        Some(h) => h@,
        None => tp.data@,
    }
}

/// Read the packets of one tile-part: for each packet of the progression
/// the packet header, which gives the segments of the code-blocks, and the
/// packet body, which holds their data. Without packed packet headers, the
/// header and the body of a packet follow each other in the tile-part.
#[verifier::rlimit(100)]
#[verifier::spinoff_prover]
fn parse_inner<'a>(
    tile_part: &TilePart<'a>,
    progression: &mut ProgressionIterator<'_>,
    tile: &Tile<'a>,
    storage: &mut DecompositionStorage<'a>,
) -> (r: Option<()>)
    requires
        old(storage).trees_ok(),
        old(progression).wf(),
    ensures
        storage_kept(&*old(storage), &*final(storage)),
        final(progression).wf(),
        !tile_part_fits(*tile_part) ==> r is None,
        tile_part_fits(*tile_part) && tile_part_empty(*tile_part) ==> r is Some && *final(storage) == *old(storage)
            && *final(progression) == *old(progression),
        tile_part_fits(*tile_part) && !tile_part_empty(*tile_part) && old(progression).remaining() <= 0 ==> r is None,
        r is Some ==> final(progression).remaining() <= old(progression).remaining(),
        final(progression).pos() >= old(progression).pos(),
        tile_part_fits(*tile_part) && !tile_part_empty(*tile_part) && !old(progression).none_within(
            old(progression).pos(),
            old(progression).end(),
        ) ==> final(progression).pos() > old(progression).pos(),
        r is Some ==> exists|
            sts: Seq<DecompositionStorage>,
            prs: Seq<ProgressionIterator>,
            ds: Seq<ProgressionData>,
            hps: Seq<int>,
            bps: Seq<int>,
        |
            #[trigger] packets_read(
                sts,
                prs,
                ds,
                hps,
                bps,
                tile,
                packet_headers_of(*tile_part),
                tile_part.data@,
                tile_part.packed_headers is Some,
            ) && sts[0] == *old(storage) && sts.last() == *final(storage) && prs[0] == *old(progression) && prs.last()
                == *final(progression) && hps[0] == 0 && bps[0] == 0 && (if tile_part.packed_headers is Some {
                hps.last() / 8 >= packet_headers_of(*tile_part).len()
            } else {
                bps.last() >= tile_part.data@.len()
            }),
        r is None ==> packets_cut(*old(storage), *final(storage), *old(progression), tile, *tile_part),
{
    proof {
        assert(packets_read(
            seq![*old(storage)],
            seq![*old(progression)],
            Seq::empty(),
            seq![0int],
            seq![0int],
            tile,
            packet_headers_of(*tile_part),
            tile_part.data@,
            tile_part.packed_headers is Some,
        ));
    }
    if tile_part.data.len() > usize::MAX / 8 {
        return None;
    }
    match tile_part.packed_headers {
        Some(h) => {
            if h.len() > usize::MAX / 8 {
                return None;
            }
        },
        None => {},
    }
    let packed = tile_part.packed_headers.is_some();
    let mut body = BitReader::new(tile_part.data);
    let mut header = match tile_part.packed_headers {
        Some(h) => BitReader::new(h),
        None => BitReader::new(tile_part.data),
    };
    let ghost s0 = *storage;
    let ghost header0 = header;
    let ghost body0 = body;
    let ghost empty = tile_part_empty(*tile_part);
    let ghost mut started = false;
    let ghost hbytes = packet_headers_of(*tile_part);
    let ghost mut pst: Seq<DecompositionStorage> = seq![*storage];
    let ghost mut prs: Seq<ProgressionIterator> = seq![*progression];
    let ghost mut pds: Seq<ProgressionData> = Seq::empty();
    let ghost mut hps: Seq<int> = seq![header.pos()];
    let ghost mut bps: Seq<int> = seq![body.spec_byte_pos()];

    loop
        invariant_except_break
            empty ==> !started,
        invariant
            body.wf(),
            body.spec_bit_pos() == 0,
            header.wf(),
            storage_kept(&s0, &*storage),
            s0 == *old(storage),
            progression.wf(),
            packed == tile_part.packed_headers.is_some(),
            empty == tile_part_empty(*tile_part),
            header0.bytes() == (match tile_part.packed_headers {
                Some(h) => h@,
                None => tile_part.data@,
            }),
            header0.pos() == 0,
            body0.bytes() == tile_part.data@,
            body0.pos() == 0,
            !started ==> header == header0 && body == body0 && *storage == s0 && *progression == *old(progression),
            started ==> old(progression).remaining() > 0,
            progression.remaining() <= old(progression).remaining(),
            progression.pos() >= old(progression).pos(),
            started ==> progression.pos() > old(progression).pos(),
            hbytes == packet_headers_of(*tile_part),
            hbytes == header0.bytes(),
            header.bytes() == hbytes,
            body.bytes() == tile_part.data@,
            packets_read(pst, prs, pds, hps, bps, tile, hbytes, tile_part.data@, packed),
            hps[0] == 0,
            bps[0] == 0,
            hps.last() == header.pos(),
            bps.last() == body.spec_byte_pos(),
            pst[0] == s0,
            pst.last() == *storage,
            prs[0] == *old(progression),
            prs.last() == *progression,
        ensures
            empty ==> !started,
            !started ==> empty,
            if packed {
                header.spec_byte_pos() >= hbytes.len()
            } else {
                body.spec_byte_pos() >= tile_part.data@.len()
            },
        decreases progression.remaining(),
    {
        let at_end = if packed { header.at_end() } else { body.at_end() };
        if at_end {
            break;
        }
        let ghost was_started = started;
        proof {
            started = true;
        }
        let progression_data = match progression.next() {
            Some(d) => d,
            None => {
                proof {
                    if !was_started {
                        assert(old(progression).none_within(old(progression).pos(), old(progression).end()));
                    }
                    assert(packets_read(pst, prs, pds, hps, bps, tile, hbytes, tile_part.data@, packed));
                }
                return None;
            },
        };

        if read_packet(&progression_data, tile, &mut header, &mut body, packed, storage).is_none() {
            proof {
                assert(packets_read(pst, prs, pds, hps, bps, tile, hbytes, tile_part.data@, packed));
            }
            return None;
        }
        proof {
            lemma_packets_push(
                pst,
                prs,
                pds,
                hps,
                bps,
                tile,
                hbytes,
                tile_part.data@,
                packed,
                *storage,
                *progression,
                progression_data,
                header.pos(),
                body.spec_byte_pos(),
            );
            pst = pst.push(*storage);
            prs = prs.push(*progression);
            pds = pds.push(progression_data);
            hps = hps.push(header.pos());
            bps = bps.push(body.spec_byte_pos());
        }
    }
    proof {
        assert(packets_read(pst, prs, pds, hps, bps, tile, packet_headers_of(*tile_part), tile_part.data@, packed));
    }
    Some(())
}

/// Read one packet, `d`, of the tile: its header, from `header` where the
/// packet headers are packed and otherwise from `body`, and then its body
/// from `body`.
#[verifier::rlimit(100)]
#[verifier::spinoff_prover]
fn read_packet<'a>(
    d: &ProgressionData,
    tile: &Tile<'a>,
    header: &mut BitReader<'a>,
    body: &mut BitReader<'a>,
    packed: bool,
    storage: &mut DecompositionStorage<'a>,
) -> (r: Option<()>)
    requires
        old(storage).trees_ok(),
        old(header).wf(),
        old(body).wf(),
        old(body).spec_bit_pos() == 0,
    ensures
        final(header).wf(),
        final(body).wf(),
        final(body).spec_bit_pos() == 0,
        final(header).bytes() == old(header).bytes(),
        final(body).bytes() == old(body).bytes(),
        storage_kept(&*old(storage), &*final(storage)),
        r is Some ==> packet_read(
            *old(storage),
            *final(storage),
            *d,
            tile,
            if packed { old(header).bytes() } else { old(body).bytes() },
            old(body).bytes(),
            packed,
            old(header).pos(),
            old(body).spec_byte_pos(),
            final(header).pos(),
            final(body).spec_byte_pos(),
        ),
{
    let ghost s_start = *storage;
    let ghost hbytes = if packed { header.bytes() } else { body.bytes() };
    let ghost bbytes = body.bytes();
    let ghost h0 = header.pos();
    let ghost b0 = body.spec_byte_pos();
    let resolution = d.resolution;
    let component = d.component as usize;
    if component >= tile.component_infos.len() || component >= storage.tile_decompositions.len() {
        return None;
    }
    let component_info = &tile.component_infos[component];
    let d_start = storage.tile_decompositions[component].decompositions.start;
    let d_end = storage.tile_decompositions[component].decompositions.end;
    if d_start > d_end || d_end > storage.decompositions.len() {
        return None;
    }
    if resolution > 0 && resolution as usize - 1 >= d_end - d_start {
        return None;
    }
    let sub_band_iter = storage.tile_decompositions[component].sub_band_iter(resolution, &storage.decompositions);

    if component_info.coding_style.flags.may_use_sop_markers() && body.peek_marker() == Some(SOP) {
        if body.read_marker().is_err() {
            return None;
        }
        if body.skip_bytes(4).is_none() {
            return None;
        }
    }

    let ghost bs0 = body.spec_byte_pos();
    proof {
        assert(bs0 == after_sop(bbytes, b0, packet_flags(tile, *d) & 0x02 != 0));
    }
    let mut header_reader = if packed { *header } else { *body };
    let ghost q = header_reader.pos();
    let ghost sbs = packet_sub_bands(&s_start, *d);
    let ghost style = packet_style(tile, *d);

    let zero_length = match header_reader.read_stuffed_bit() {
        Some(b) => b == 0,
        None => return None,
    };
    let ghost mut hs: Seq<DecompositionStorage> = seq![*storage];
    let ghost mut hp: Seq<int> = seq![header_reader.pos()];
    let ghost hp0 = header_reader.pos();
    proof {
        assert(sub_band_iter.remaining() == sbs);
        assert(sbs.len() == (if resolution == 0 { 1int } else { 3int }));
        assert forall|j: int| 0 <= j < sbs.len() implies sbs[j] == sub_band_iter.indices@[j] by {
            assert(sub_band_iter.remaining()[j] == sub_band_iter.indices@[j]);
        }
        assert(headers_read(hs, hp, hbytes, sbs, d.precinct as int, d.layer_num, style)) by {
            reveal(headers_read);
        }
    }

    // B.10.3 Zero length packet
    // "The first bit in the packet header denotes whether the packet has a length of zero
    // (empty packet). The value 0 indicates a zero length; no code-blocks are included in this
    // case. The value 1 indicates a non-zero length."
    if !zero_length {
        let mut iter = SubBandCursor { indices: sub_band_iter.indices, count: if resolution == 0 { 1 } else { 3 }, next: 0 };
        while iter.next < iter.count
            invariant
                header_reader.wf(),
                storage_kept(&s_start, &*storage),
                s_start == *old(storage),
                iter.count <= 3,
                iter.count == (if resolution == 0 { 1usize } else { 3usize }),
                iter.next <= iter.count,
                sbs.len() == iter.count,
                forall|j: int| 0 <= j < iter.count ==> sbs[j] == iter.indices@[j],
                header_reader.bytes() == hbytes,
                headers_read(hs, hp, hbytes, sbs, d.precinct as int, d.layer_num, style),
                hs.len() == iter.next + 1,
                hs[0] == s_start,
                hs.last() == *storage,
                hp.last() == header_reader.pos(),
                hp[0] == hp0,
                hp.len() == iter.next + 1,
                style == component_info.coding_style.parameters.code_block_style,
                header.wf(),
                body.wf(),
                body.spec_bit_pos() == 0,
                header.bytes() == old(header).bytes(),
                body.bytes() == old(body).bytes(),
                bbytes == old(body).bytes(),
                hbytes == (if packed { old(header).bytes() } else { old(body).bytes() }),
            decreases iter.count - iter.next,
        {
            let sub_band = iter.indices[iter.next];
            iter.next = iter.next + 1;
            match resolve_segments(sub_band, d, &mut header_reader, storage, component_info) {
                Some(()) => {},
                None => return None,
            }
            proof {
                lemma_headers_push(
                    hs,
                    hp,
                    hbytes,
                    sbs,
                    d.precinct as int,
                    d.layer_num,
                    style,
                    *storage,
                    header_reader.pos(),
                );
                hs = hs.push(*storage);
                hp = hp.push(header_reader.pos());
            }
        }
    }

    let ghost hend = header_reader.pos();
    header_reader.align();
    let ghost ha = header_reader.pos();
    proof {
        assert(ha == aligned_bit(hend));
    }

    if component_info.coding_style.flags.uses_eph_marker() {
        match header_reader.read_marker() {
            Ok(m) => {
                if m != EPH {
                    return None;
                }
            },
            Err(_) => return None,
        }
    }

    if packed {
        *header = header_reader;
    } else {
        *body = header_reader;
    }

    let ghost st_mid = *storage;
    let ghost h_after = header.pos();
    proof {
        assert(header_reader.pos() == (if packet_flags(tile, *d) & 0x04 != 0 { ha + 16 } else { ha }));
    }
    let ghost mut bs: Seq<DecompositionStorage> = seq![*storage];
    let ghost mut bp: Seq<int> = seq![body.spec_byte_pos()];
    let ghost bp0 = body.spec_byte_pos();
    proof {
        assert(bp0 == (if packed { bs0 } else { (if packet_flags(tile, *d) & 0x04 != 0 { ha + 16 } else { ha }) / 8 }));
    }
    proof {
        assert(bodies_read(bs, bp, bbytes, sbs, d.precinct as int, d.layer_num as int)) by {
            reveal(bodies_read);
        }
    }
    // Now read the packet body.
    if !zero_length {
        let count: usize = if resolution == 0 { 1 } else { 3 };
        let mut k: usize = 0;
        while k < count
            invariant
                body.wf(),
                body.spec_bit_pos() == 0,
                storage_kept(&s_start, &*storage),
                s_start == *old(storage),
                count <= 3,
                count == (if resolution == 0 { 1usize } else { 3usize }),
                k <= count,
                sbs.len() == count,
                forall|j: int| 0 <= j < count ==> sbs[j] == sub_band_iter.indices@[j],
                body.bytes() == bbytes,
                bodies_read(bs, bp, bbytes, sbs, d.precinct as int, d.layer_num as int),
                bs.len() == k + 1,
                bp.len() == k + 1,
                bp[0] == bp0,
                bs[0] == st_mid,
                bs.last() == *storage,
                bp.last() == body.spec_byte_pos(),
                header.wf(),
                header.bytes() == old(header).bytes(),
                bbytes == old(body).bytes(),
                header.pos() == h_after,
            decreases count - k,
        {
            let sub_band = sub_band_iter.indices[k];
            k = k + 1;
            if read_packet_body(sub_band, d, body, storage).is_none() {
                return None;
            }
            proof {
                lemma_bodies_push(
                    bs,
                    bp,
                    bbytes,
                    sbs,
                    d.precinct as int,
                    d.layer_num as int,
                    *storage,
                    body.spec_byte_pos(),
                );
                bs = bs.push(*storage);
                bp = bp.push(body.spec_byte_pos());
            }
        }
    }
    proof {
        if !zero_length {
            assert(stuffed_bits(hbytes, q, 1, 0).0 == Some(1u32));
            assert(hp.len() >= 1);
            assert(hp[0] == stuffed_bits(hbytes, q, 1, 0).1);
            assert(hend == hp.last());
            assert(hs.len() == sbs.len() + 1);
            assert(bs.len() == sbs.len() + 1);
            assert(hs[0] == s_start);
            assert(hs.last() == bs[0]);
            assert(bs.last() == *storage);
            assert(headers_read(hs, hp, hbytes, packet_sub_bands(&s_start, *d), d.precinct as int, d.layer_num, packet_style(tile, *d)));
            assert(bodies_read(bs, bp, bbytes, packet_sub_bands(&s_start, *d), d.precinct as int, d.layer_num as int));
            assert(bp[0] == (if packed { bs0 } else { (if packet_flags(tile, *d) & 0x04 != 0 { ha + 16 } else { ha }) / 8 }));
        }
        lemma_packet_parts(
            s_start,
            *storage,
            *d,
            tile,
            hbytes,
            bbytes,
            packed,
            h0,
            b0,
            header.pos(),
            body.spec_byte_pos(),
            q,
            hs,
            hp,
            bs,
            bp,
            bs0,
            hend,
            ha,
            zero_length,
        );
    }
    Some(())
}

/// The position in the sub-bands of one resolution.
struct SubBandCursor {
    indices: [usize; 3],
    count: usize,
    next: usize,
}

/// Where the segments that layer `layer` contributes to code-block `cb`
/// start in the storage.
pub open spec fn contributed_start(st: &DecompositionStorage, layer: int, cb: int) -> int {
    let c = st.code_blocks@[cb];
    match st.layers@[c.layers.start + layer].segments {
        Some(range) => range.start as int,
        None => 0,
    }
}

/// Where a packet body holds the data of the segments that layer `layer`
/// contributes to the code-blocks `cb..cb_end`, from segment `s` of
/// code-block `cb` on, the body being at byte `at` of its `len` bytes: the
/// data of each segment, as long as its length says, follows that of the
/// one before. Gives the byte offset of each segment read, added to
/// `offsets`, and the byte where the body ends; `None` where the storage
/// does not hold the code-blocks, their layers or their segments, or the
/// body runs out.
pub open spec fn body_from(
    st: &DecompositionStorage,
    layer: int,
    len: int,
    at: int,
    cb: int,
    cb_end: int,
    s: int,
    offsets: Map<int, int>,
) -> Option<(Map<int, int>, int)>
    decreases cb_end - cb, st.segments@.len() + 1 - s,
{
    if cb >= cb_end {
        Some((offsets, at))
    } else if cb < 0 || cb >= st.code_blocks@.len() {
        None
    } else {
        let c = st.code_blocks@[cb];
        if c.layers.start > c.layers.end || c.layers.end > st.layers@.len() || layer >= c.layers.end - c.layers.start {
            None
        } else {
            match st.layers@[c.layers.start + layer].segments {
                None => body_from(st, layer, len, at, cb + 1, cb_end, contributed_start(st, layer, cb + 1), offsets),
                Some(range) => if range.start > range.end || range.end > st.segments@.len() {
                    None
                } else if s >= range.end {
                    body_from(st, layer, len, at, cb + 1, cb_end, contributed_start(st, layer, cb + 1), offsets)
                } else if s < 0 {
                    None
                } else {
                    let n = st.segments@[s].data_length as int;
                    if at + n > len {
                        None
                    } else {
                        body_from(st, layer, len, at + n, cb, cb_end, s + 1, offsets.insert(s, at))
                    }
                },
            }
        }
    }
}

/// Where the body of a packet holds the data of the segments that it
/// contributes to the code-blocks of precinct `precinct` of sub-band
/// `sub_band_idx` (B.9): `None` where the storage does not hold them.
pub open spec fn packet_body(
    st: &DecompositionStorage,
    sub_band_idx: int,
    precinct: int,
    layer: int,
    len: int,
    at: int,
) -> Option<(Map<int, int>, int)> {
    if sub_band_idx >= st.sub_bands@.len() {
        None
    } else {
        let sb = st.sub_bands@[sub_band_idx];
        if sb.precincts.start > sb.precincts.end || sb.precincts.end > st.precincts@.len() || precinct >= sb.precincts.end
            - sb.precincts.start {
            None
        } else {
            let p = st.precincts@[sb.precincts.start + precinct];
            body_from(
                st,
                layer,
                len,
                at,
                p.code_blocks.start as int,
                p.code_blocks.end as int,
                contributed_start(st, layer, p.code_blocks.start as int),
                Map::empty(),
            )
        }
    }
}

/// The segments got their data from `bytes` at `offsets` and are
/// otherwise unchanged.
pub open spec fn data_read(a: Seq<Segment>, b: Seq<Segment>, bytes: Seq<u8>, offsets: Map<int, int>) -> bool {
    &&& b.len() == a.len()
    &&& forall|i: int|
        0 <= i < a.len() ==> {
            &&& (#[trigger] b[i]).idx == a[i].idx
            &&& b[i].coding_pases == a[i].coding_pases
            &&& b[i].data_length == a[i].data_length
            &&& if offsets.dom().contains(i) {
                b[i].data@ == bytes.subrange(offsets[i], offsets[i] + a[i].data_length)
            } else {
                b[i].data == a[i].data
            }
        }
}

/// The packet header of sub-band `sb` of precinct `precinct` in layer
/// `layer`, read from bit `p` of `data`, took the storage from `a` to `b`
/// and the header to bit `q`, as `packet_header` says.
pub open spec fn header_step(
    a: DecompositionStorage,
    b: DecompositionStorage,
    p: int,
    q: int,
    data: Seq<u8>,
    sb: int,
    precinct: int,
    layer: u8,
    style: CodeBlockStyle,
) -> bool {
    &&& packet_header(&a, data, p, sb, precinct, layer, style) matches Some(hs)
    &&& q == hs.pos
    &&& holds_header(&a, &b, a.segments@.len() as int, hs)
    &&& storage_kept(&a, &b)
}

/// The packet body of sub-band `sb` of precinct `precinct` in layer
/// `layer`, read from byte `p` of `data`, gave the segments of `a` their
/// data, which makes `b`, and took the body to byte `q`, as `packet_body`
/// says.
pub open spec fn body_step(
    a: DecompositionStorage,
    b: DecompositionStorage,
    p: int,
    q: int,
    data: Seq<u8>,
    sb: int,
    precinct: int,
    layer: int,
) -> bool {
    &&& packet_body(&a, sb, precinct, layer, data.len() as int, p) matches Some((offsets, end))
    &&& q == end
    &&& b.code_blocks == a.code_blocks
    &&& b.layers == a.layers
    &&& b.tag_tree_nodes == a.tag_tree_nodes
    &&& data_read(a.segments@, b.segments@, data, offsets)
    &&& storage_kept(&a, &b)
}

/// The packet headers of the sub-bands `sbs[..sts.len() - 1]` were read one
/// after the other: the `i`-th took the storage from `sts[i]` to
/// `sts[i + 1]` and the header from bit `ps[i]` to bit `ps[i + 1]`.
#[verifier::opaque]
pub open spec fn headers_read(
    sts: Seq<DecompositionStorage>,
    ps: Seq<int>,
    data: Seq<u8>,
    sbs: Seq<usize>,
    precinct: int,
    layer: u8,
    style: CodeBlockStyle,
) -> bool {
    &&& sts.len() >= 1
    &&& ps.len() == sts.len()
    &&& sts.len() <= sbs.len() + 1
    &&& forall|i: int|
        0 <= i < sts.len() - 1 ==> header_step(
            #[trigger] sts[i],
            sts[i + 1],
            ps[i],
            ps[i + 1],
            data,
            sbs[i] as int,
            precinct,
            layer,
            style,
        )
}

/// The packet bodies of the sub-bands `sbs[..sts.len() - 1]` were read one
/// after the other: the `i`-th took the storage from `sts[i]` to
/// `sts[i + 1]` and the body from byte `ps[i]` to byte `ps[i + 1]`.
#[verifier::opaque]
pub open spec fn bodies_read(
    sts: Seq<DecompositionStorage>,
    ps: Seq<int>,
    data: Seq<u8>,
    sbs: Seq<usize>,
    precinct: int,
    layer: int,
) -> bool {
    &&& sts.len() >= 1
    &&& ps.len() == sts.len()
    &&& sts.len() <= sbs.len() + 1
    &&& forall|i: int|
        0 <= i < sts.len() - 1 ==> body_step(#[trigger] sts[i], sts[i + 1], ps[i], ps[i + 1], data, sbs[i] as int, precinct, layer)
}

/// Reading one more packet header extends the headers read.
proof fn lemma_headers_push(
    sts: Seq<DecompositionStorage>,
    ps: Seq<int>,
    data: Seq<u8>,
    sbs: Seq<usize>,
    precinct: int,
    layer: u8,
    style: CodeBlockStyle,
    b: DecompositionStorage,
    q: int,
)
    requires
        headers_read(sts, ps, data, sbs, precinct, layer, style),
        sts.len() <= sbs.len(),
        header_step(sts.last(), b, ps.last(), q, data, sbs[sts.len() - 1] as int, precinct, layer, style),
    ensures
        headers_read(sts.push(b), ps.push(q), data, sbs, precinct, layer, style),
{
    reveal(headers_read);
    let s2 = sts.push(b);
    let p2 = ps.push(q);
    assert forall|i: int| 0 <= i < s2.len() - 1 implies header_step(
        #[trigger] s2[i],
        s2[i + 1],
        p2[i],
        p2[i + 1],
        data,
        sbs[i] as int,
        precinct,
        layer,
        style,
    ) by {
        if i < sts.len() - 1 {
            assert(s2[i] == sts[i] && s2[i + 1] == sts[i + 1] && p2[i] == ps[i] && p2[i + 1] == ps[i + 1]);
            assert(header_step(sts[i], sts[i + 1], ps[i], ps[i + 1], data, sbs[i] as int, precinct, layer, style));
        }
    }
}

/// Reading one more packet body extends the bodies read.
proof fn lemma_bodies_push(
    sts: Seq<DecompositionStorage>,
    ps: Seq<int>,
    data: Seq<u8>,
    sbs: Seq<usize>,
    precinct: int,
    layer: int,
    b: DecompositionStorage,
    q: int,
)
    requires
        bodies_read(sts, ps, data, sbs, precinct, layer),
        sts.len() <= sbs.len(),
        body_step(sts.last(), b, ps.last(), q, data, sbs[sts.len() - 1] as int, precinct, layer),
    ensures
        bodies_read(sts.push(b), ps.push(q), data, sbs, precinct, layer),
{
    reveal(bodies_read);
    let s2 = sts.push(b);
    let p2 = ps.push(q);
    assert forall|i: int| 0 <= i < s2.len() - 1 implies body_step(
        #[trigger] s2[i],
        s2[i + 1],
        p2[i],
        p2[i + 1],
        data,
        sbs[i] as int,
        precinct,
        layer,
    ) by {
        if i < sts.len() - 1 {
            assert(s2[i] == sts[i] && s2[i + 1] == sts[i + 1] && p2[i] == ps[i] && p2[i + 1] == ps[i + 1]);
            assert(body_step(sts[i], sts[i + 1], ps[i], ps[i + 1], data, sbs[i] as int, precinct, layer));
        }
    }
}

/// The sub-bands of the resolution of packet `d` in the storage: the LL
/// sub-band of its component for resolution 0, else the three sub-bands
/// of the decomposition of that resolution.
pub open spec fn packet_sub_bands(st: &DecompositionStorage, d: ProgressionData) -> Seq<usize> {
    let td = st.tile_decompositions@[d.component as int];
    if d.resolution == 0 {
        seq![td.first_ll_sub_band]
    } else {
        st.decompositions@[td.decompositions.start + d.resolution - 1].sub_bands@
    }
}

/// The code-block style of the component of packet `d` in the tile.
pub open spec fn packet_style(tile: &Tile, d: ProgressionData) -> CodeBlockStyle {
    tile.component_infos@[d.component as int].coding_style.parameters.code_block_style
}

/// A marker with code `m` starts at byte `p` of `b`.
pub open spec fn marker_at(b: Seq<u8>, p: int, m: u8) -> bool {
    0 <= p && p + 2 <= b.len() && b[p] == 0xff && b[p + 1] == m
}

/// Where a packet starts in a body at byte `p`: after its SOP marker
/// segment of six bytes, where SOP markers may be used and one stands
/// there.
pub open spec fn after_sop(b: Seq<u8>, p: int, sop: bool) -> int {
    if sop && marker_at(b, p, SOP) {
        p + 6
    } else {
        p
    }
}

/// The bit position `pos` moved to the next byte boundary.
pub open spec fn aligned_bit(pos: int) -> int {
    if pos % 8 == 0 {
        pos
    } else {
        pos + 8 - pos % 8
    }
}

/// The coding style flags of the component of packet `d` in the tile.
pub open spec fn packet_flags(tile: &Tile, d: ProgressionData) -> u8 {
    tile.component_infos@[d.component as int].coding_style.flags.raw
}

/// Packet `d` of the tile took the storage from `a` to `b`, the header
/// from bit `h0` to bit `h1` of `hdr` and the body from byte `b0` to byte
/// `b1` of `body`, as `packet_parts` says for some place of its first bit
/// and some storages and positions between its sub-bands.
pub open spec fn packet_read(
    a: DecompositionStorage,
    b: DecompositionStorage,
    d: ProgressionData,
    tile: &Tile,
    hdr: Seq<u8>,
    body: Seq<u8>,
    packed: bool,
    h0: int,
    b0: int,
    h1: int,
    b1: int,
) -> bool {
    exists|q: int, hs: Seq<DecompositionStorage>, hp: Seq<int>, bs: Seq<DecompositionStorage>, bp: Seq<int>|
        #[trigger] packet_parts(a, b, d, tile, hdr, body, packed, h0, b0, h1, b1, q, hs, hp, bs, bp)
}

/// Reading packet `d` of the tile (B.9, B.10): where SOP markers may be
/// used, an SOP marker segment at the start of the body is skipped; the
/// packet header starts at bit `q`: at `h0` in packed packet headers, else
/// where the body now stands. Its first bit tells an empty packet, which
/// leaves the storage as it is; otherwise the headers of the sub-bands of
/// its resolution follow that bit one after the other, from storage `hs[0]
/// == a` through `hs` and bits `hp`. The header then ends at a byte
/// boundary, after an EPH marker where they are used. The bodies of the
/// sub-bands follow one another, through storages `bs` up to `b` and bytes
/// `bp`, from the start of the body, which is after the header where the
/// headers are not packed.
pub open spec fn packet_parts(
    a: DecompositionStorage,
    b: DecompositionStorage,
    d: ProgressionData,
    tile: &Tile,
    hdr: Seq<u8>,
    body: Seq<u8>,
    packed: bool,
    h0: int,
    b0: int,
    h1: int,
    b1: int,
    q: int,
    hs: Seq<DecompositionStorage>,
    hp: Seq<int>,
    bs: Seq<DecompositionStorage>,
    bp: Seq<int>,
) -> bool {
    let sbs = packet_sub_bands(&a, d);
    let sop = packet_flags(tile, d) & 0x02 != 0;
    let eph = packet_flags(tile, d) & 0x04 != 0;
    let bs0 = after_sop(body, b0, sop);
    let (bit, after) = stuffed_bits(hdr, q, 1, 0);
    let zero = bit == Some(0u32);
    let hend = if zero { after } else { hp.last() };
    let ha = aligned_bit(hend);
    let hnext = if eph { ha + 16 } else { ha };
    let bstart = if packed { bs0 } else { hnext / 8 };
    &&& q == (if packed { h0 } else { bs0 * 8 })
    &&& eph ==> marker_at(hdr, ha / 8, EPH)
    &&& h1 == (if packed { hnext } else { h0 })
    &&& {
        ||| zero && b == a && b1 == bstart
        ||| {
            &&& bit == Some(1u32)
            &&& hp.len() >= 1 && hp[0] == after
            &&& headers_read(hs, hp, hdr, sbs, d.precinct as int, d.layer_num, packet_style(tile, d))
            &&& bodies_read(bs, bp, body, sbs, d.precinct as int, d.layer_num as int)
            &&& hs.len() == sbs.len() + 1
            &&& bs.len() == sbs.len() + 1
            &&& hs[0] == a
            &&& hs.last() == bs[0]
            &&& bs.last() == b
            &&& bp[0] == bstart
            &&& b1 == bp.last()
        }
    }
}

/// The facts that reading a packet establishes, one by one, make up
/// `packet_parts`.
proof fn lemma_packet_parts(
    a: DecompositionStorage,
    b: DecompositionStorage,
    d: ProgressionData,
    tile: &Tile,
    hdr: Seq<u8>,
    body: Seq<u8>,
    packed: bool,
    h0: int,
    b0: int,
    h1: int,
    b1: int,
    q: int,
    hs: Seq<DecompositionStorage>,
    hp: Seq<int>,
    bs: Seq<DecompositionStorage>,
    bp: Seq<int>,
    bs0: int,
    hend: int,
    ha: int,
    zero: bool,
)
    requires
        bs0 == after_sop(body, b0, packet_flags(tile, d) & 0x02 != 0),
        q == (if packed { h0 } else { bs0 * 8 }),
        ha == aligned_bit(hend),
        packet_flags(tile, d) & 0x04 != 0 ==> marker_at(hdr, ha / 8, EPH),
        h1 == (if packed { if packet_flags(tile, d) & 0x04 != 0 { ha + 16 } else { ha } } else { h0 }),
        b1 == (if zero { if packed { bs0 } else { (if packet_flags(tile, d) & 0x04 != 0 { ha + 16 } else { ha }) / 8 } } else { bp.last() }),
        zero ==> stuffed_bits(hdr, q, 1, 0).0 == Some(0u32) && hend == stuffed_bits(hdr, q, 1, 0).1 && b == a,
        !zero ==> {
            &&& stuffed_bits(hdr, q, 1, 0).0 == Some(1u32)
            &&& hp.len() >= 1
            &&& hp[0] == stuffed_bits(hdr, q, 1, 0).1
            &&& hend == hp.last()
            &&& headers_read(hs, hp, hdr, packet_sub_bands(&a, d), d.precinct as int, d.layer_num, packet_style(tile, d))
            &&& bodies_read(bs, bp, body, packet_sub_bands(&a, d), d.precinct as int, d.layer_num as int)
            &&& hs.len() == packet_sub_bands(&a, d).len() + 1
            &&& bs.len() == packet_sub_bands(&a, d).len() + 1
            &&& hs[0] == a
            &&& hs.last() == bs[0]
            &&& bs.last() == b
            &&& bp[0] == (if packed { bs0 } else { (if packet_flags(tile, d) & 0x04 != 0 { ha + 16 } else { ha }) / 8 })
        },
    ensures
        packet_parts(a, b, d, tile, hdr, body, packed, h0, b0, h1, b1, q, hs, hp, bs, bp),
{
}

/// The packets `ds` of the progression were read one after the other: the
/// progression went from `prs[k]` to `prs[k + 1]` as `next` gives packet
/// `ds[k]`, and reading that packet took the storage from `sts[k]` to
/// `sts[k + 1]`, the header from bit `hps[k]` to bit `hps[k + 1]` and the
/// body from byte `bps[k]` to byte `bps[k + 1]`.
pub open spec fn packets_read(
    sts: Seq<DecompositionStorage>,
    prs: Seq<ProgressionIterator>,
    ds: Seq<ProgressionData>,
    hps: Seq<int>,
    bps: Seq<int>,
    tile: &Tile,
    hdr: Seq<u8>,
    body: Seq<u8>,
    packed: bool,
) -> bool {
    &&& sts.len() == ds.len() + 1
    &&& prs.len() == ds.len() + 1
    &&& hps.len() == ds.len() + 1
    &&& bps.len() == ds.len() + 1
    &&& forall|k: int|
        0 <= k < ds.len() ==> {
            &&& (#[trigger] prs[k]).valid(ds[k])
            &&& prs[k].pos() <= prs[k].key(ds[k]) < prs[k + 1].pos()
            &&& prs[k].none_within(prs[k].pos(), prs[k].key(ds[k]))
            &&& prs[k + 1].same_packets(&prs[k])
            &&& packet_read(sts[k], sts[k + 1], ds[k], tile, hdr, body, packed, hps[k], bps[k], hps[k + 1], bps[k + 1])
        }
}

/// Reading one more packet extends the packets read.
proof fn lemma_packets_push(
    sts: Seq<DecompositionStorage>,
    prs: Seq<ProgressionIterator>,
    ds: Seq<ProgressionData>,
    hps: Seq<int>,
    bps: Seq<int>,
    tile: &Tile,
    hdr: Seq<u8>,
    body: Seq<u8>,
    packed: bool,
    b: DecompositionStorage,
    pr: ProgressionIterator,
    d: ProgressionData,
    h1: int,
    b1: int,
)
    requires
        packets_read(sts, prs, ds, hps, bps, tile, hdr, body, packed),
        prs.last().valid(d),
        prs.last().pos() <= prs.last().key(d) < pr.pos(),
        prs.last().none_within(prs.last().pos(), prs.last().key(d)),
        pr.same_packets(&prs.last()),
        packet_read(sts.last(), b, d, tile, hdr, body, packed, hps.last(), bps.last(), h1, b1),
    ensures
        packets_read(sts.push(b), prs.push(pr), ds.push(d), hps.push(h1), bps.push(b1), tile, hdr, body, packed),
{
    let s2 = sts.push(b);
    let p2 = prs.push(pr);
    let d2 = ds.push(d);
    let h2 = hps.push(h1);
    let b2 = bps.push(b1);
    assert forall|k: int| 0 <= k < d2.len() implies {
        &&& (#[trigger] p2[k]).valid(d2[k])
        &&& p2[k].pos() <= p2[k].key(d2[k]) < p2[k + 1].pos()
        &&& p2[k].none_within(p2[k].pos(), p2[k].key(d2[k]))
        &&& p2[k + 1].same_packets(&p2[k])
        &&& packet_read(s2[k], s2[k + 1], d2[k], tile, hdr, body, packed, h2[k], b2[k], h2[k + 1], b2[k + 1])
    } by {
        if k < ds.len() {
            assert(p2[k] == prs[k] && p2[k + 1] == prs[k + 1] && s2[k] == sts[k] && s2[k + 1] == sts[k + 1] && d2[k] == ds[k]);
            assert(h2[k] == hps[k] && h2[k + 1] == hps[k + 1] && b2[k] == bps[k] && b2[k + 1] == bps[k + 1]);
            assert(prs[k].valid(ds[k]));
        } else {
            assert(p2[k] == prs.last() && p2[k + 1] == pr && s2[k] == sts.last() && s2[k + 1] == b && d2[k] == d);
            assert(h2[k] == hps.last() && h2[k + 1] == h1 && b2[k] == bps.last() && b2[k + 1] == b1);
        }
    }
}

/// Read the data of the segments that a packet contributes to the
/// code-blocks of one precinct of a sub-band.
fn read_packet_body<'a>(
    sub_band_idx: usize,
    progression_data: &ProgressionData,
    body: &mut BitReader<'a>,
    storage: &mut DecompositionStorage<'a>,
) -> (r: Option<()>)
    requires
        old(body).wf(),
        old(body).spec_bit_pos() == 0,
        old(storage).trees_ok(),
    ensures
        final(body).wf(),
        final(body).spec_bit_pos() == 0,
        final(body).bytes() == old(body).bytes(),
        storage_kept(&*old(storage), &*final(storage)),
        match packet_body(
            &*old(storage),
            sub_band_idx as int,
            progression_data.precinct as int,
            progression_data.layer_num as int,
            old(body).bytes().len() as int,
            old(body).spec_byte_pos(),
        ) {
            None => r is None,
            Some((offsets, end)) => {
                &&& r is Some
                &&& final(body).spec_byte_pos() == end
                &&& final(storage).code_blocks == old(storage).code_blocks
                &&& final(storage).layers == old(storage).layers
                &&& final(storage).tag_tree_nodes == old(storage).tag_tree_nodes
                &&& data_read(old(storage).segments@, final(storage).segments@, old(body).bytes(), offsets)
            },
        },
{
    if sub_band_idx >= storage.sub_bands.len() {
        return None;
    }
    let p_start = storage.sub_bands[sub_band_idx].precincts.start;
    let p_end = storage.sub_bands[sub_band_idx].precincts.end;
    if p_start > p_end || p_end > storage.precincts.len() || progression_data.precinct >= (p_end - p_start) as u64 {
        return None;
    }
    let p_idx = p_start + progression_data.precinct as usize;
    let cb_start = storage.precincts[p_idx].code_blocks.start;
    let cb_end = storage.precincts[p_idx].code_blocks.end;
    let layer_num = progression_data.layer_num as usize;
    let ghost s0 = *storage;
    let ghost bytes = body.bytes();
    let ghost goal = packet_body(
        &s0,
        sub_band_idx as int,
        progression_data.precinct as int,
        progression_data.layer_num as int,
        bytes.len() as int,
        body.spec_byte_pos(),
    );
    let ghost mut offsets: Map<int, int> = Map::empty();
    proof {
        assert(data_read(s0.segments@, storage.segments@, bytes, offsets));
    }

    let mut cb_idx = cb_start;
    while cb_idx < cb_end
        invariant
            body.wf(),
            body.spec_bit_pos() == 0,
            body.bytes() == old(body).bytes(),
            bytes == old(body).bytes(),
            storage_kept(&s0, &*storage),
            s0 == *old(storage),
            storage.code_blocks@ == s0.code_blocks@,
            storage.layers@ == s0.layers@,
            storage.code_blocks == s0.code_blocks,
            storage.layers == s0.layers,
            storage.tag_tree_nodes == s0.tag_tree_nodes,
            storage.segments@.len() == s0.segments@.len(),
            layer_num == progression_data.layer_num,
            data_read(s0.segments@, storage.segments@, bytes, offsets),
            goal == packet_body(
                &s0,
                sub_band_idx as int,
                progression_data.precinct as int,
                progression_data.layer_num as int,
                bytes.len() as int,
                old(body).spec_byte_pos(),
            ),
            goal == body_from(
                &s0,
                layer_num as int,
                bytes.len() as int,
                body.spec_byte_pos(),
                cb_idx as int,
                cb_end as int,
                contributed_start(&s0, layer_num as int, cb_idx as int),
                offsets,
            ),
        decreases cb_end - cb_idx,
    {
        if cb_idx >= storage.code_blocks.len() {
            return None;
        }
        let l_start = storage.code_blocks[cb_idx].layers.start;
        let l_end = storage.code_blocks[cb_idx].layers.end;
        if l_start > l_end || l_end > storage.layers.len() || layer_num >= l_end - l_start {
            return None;
        }
        let segments = match &storage.layers[l_start + layer_num].segments {
            Some(range) => Some(Range { start: range.start, end: range.end }),
            None => None,
        };
        match segments {
            Some(range) => {
                if range.start > range.end || range.end > storage.segments.len() {
                    return None;
                }
                let mut s = range.start;
                while s < range.end
                    invariant
                        body.wf(),
                        body.spec_bit_pos() == 0,
                        body.bytes() == old(body).bytes(),
                        bytes == old(body).bytes(),
                        storage_kept(&s0, &*storage),
                        s0 == *old(storage),
                        storage.code_blocks@ == s0.code_blocks@,
                        storage.layers@ == s0.layers@,
                        storage.code_blocks == s0.code_blocks,
                        storage.layers == s0.layers,
                        storage.tag_tree_nodes == s0.tag_tree_nodes,
                        storage.segments@.len() == s0.segments@.len(),
                        range.end <= storage.segments@.len(),
                        range.start <= s,
                        cb_idx < cb_end,
                        cb_idx < s0.code_blocks@.len(),
                        l_start == s0.code_blocks@[cb_idx as int].layers.start,
                        l_end == s0.code_blocks@[cb_idx as int].layers.end,
                        l_start <= l_end <= s0.layers@.len(),
                        layer_num < l_end - l_start,
                        s0.layers@[l_start + layer_num].segments == Some(range),
                        data_read(s0.segments@, storage.segments@, bytes, offsets),
                        goal == packet_body(
                            &s0,
                            sub_band_idx as int,
                            progression_data.precinct as int,
                            progression_data.layer_num as int,
                            bytes.len() as int,
                            old(body).spec_byte_pos(),
                        ),
                        goal == body_from(
                            &s0,
                            layer_num as int,
                            bytes.len() as int,
                            body.spec_byte_pos(),
                            cb_idx as int,
                            cb_end as int,
                            s as int,
                            offsets,
                        ),
                    decreases range.end - s,
                {
                    let len = storage.segments[s].data_length as usize;
                    let ghost at = body.spec_byte_pos();
                    let data = match body.read_bytes(len) {
                        Some(d) => d,
                        None => return None,
                    };
                    let ghost before = storage.segments@;
                    storage.segments[s].data = data;
                    proof {
                        offsets = offsets.insert(s as int, at);
                        assert(storage.segments@ == before.update(s as int, storage.segments@[s as int]));
                        assert forall|i: int| 0 <= i < s0.segments@.len() implies {
                            &&& (#[trigger] storage.segments@[i]).idx == s0.segments@[i].idx
                            &&& storage.segments@[i].coding_pases == s0.segments@[i].coding_pases
                            &&& storage.segments@[i].data_length == s0.segments@[i].data_length
                            &&& if offsets.dom().contains(i) {
                                storage.segments@[i].data@ == bytes.subrange(offsets[i], offsets[i] + s0.segments@[i].data_length)
                            } else {
                                storage.segments@[i].data == s0.segments@[i].data
                            }
                        } by {
                            if i != s {
                                assert(storage.segments@[i] == before[i]);
                            }
                        }
                    }
                    s = s + 1;
                }
            },
            None => {},
        }
        cb_idx = cb_idx + 1;
    }
    Some(())
}

/// Reading the packets of tile-part `i` of the tile took the storage from
/// `a` to `b` and the progression from `pa` to `pb`, as `packets_read`
/// says, from the start of its packet headers and data to the end of the
/// one from which the headers are read.
pub open spec fn tile_part_packets(
    a: DecompositionStorage,
    b: DecompositionStorage,
    pa: ProgressionIterator,
    pb: ProgressionIterator,
    tile: &Tile,
    i: int,
) -> bool {
    let tp = tile.tile_parts@[i];
    exists|
        sts: Seq<DecompositionStorage>,
        prs: Seq<ProgressionIterator>,
        ds: Seq<ProgressionData>,
        hps: Seq<int>,
        bps: Seq<int>,
    |
        #[trigger] packets_read(sts, prs, ds, hps, bps, tile, packet_headers_of(tp), tp.data@, tp.packed_headers is Some)
            && sts[0] == a && sts.last() == b && prs[0] == pa && prs.last() == pb && hps[0] == 0 && bps[0] == 0 && (
        if tp.packed_headers is Some {
            hps.last() / 8 >= packet_headers_of(tp).len()
        } else {
            bps.last() >= tp.data@.len()
        })
}

/// The first `sts.len() - 1` tile-parts of the tile were read one after
/// the other: tile-part `i` took the storage from `sts[i]` to `sts[i + 1]`
/// and the progression from `prs[i]` to `prs[i + 1]`; unless the reading
/// is strict, the reading of a tile-part may also have stopped short.
pub open spec fn tile_parts_read(
    sts: Seq<DecompositionStorage>,
    prs: Seq<ProgressionIterator>,
    tile: &Tile,
    strict: bool,
) -> bool {
    &&& sts.len() >= 1
    &&& prs.len() == sts.len()
    &&& sts.len() <= tile.tile_parts@.len() + 1
    &&& forall|i: int|
        0 <= i < sts.len() - 1 ==> tile_part_packets(#[trigger] sts[i], sts[i + 1], prs[i], prs[i + 1], tile, i) || (!strict
            && packets_cut(sts[i], sts[i + 1], prs[i], tile, tile.tile_parts@[i]))
}

/// Reading one more tile-part extends the tile-parts read.
proof fn lemma_tile_parts_push(
    sts: Seq<DecompositionStorage>,
    prs: Seq<ProgressionIterator>,
    tile: &Tile,
    strict: bool,
    b: DecompositionStorage,
    pb: ProgressionIterator,
)
    requires
        tile_parts_read(sts, prs, tile, strict),
        sts.len() <= tile.tile_parts@.len(),
        tile_part_packets(sts.last(), b, prs.last(), pb, tile, sts.len() - 1) || (!strict && packets_cut(
            sts.last(),
            b,
            prs.last(),
            tile,
            tile.tile_parts@[sts.len() - 1],
        )),
    ensures
        tile_parts_read(sts.push(b), prs.push(pb), tile, strict),
{
    let s2 = sts.push(b);
    let p2 = prs.push(pb);
    assert forall|i: int| 0 <= i < s2.len() - 1 implies tile_part_packets(#[trigger] s2[i], s2[i + 1], p2[i], p2[i + 1], tile, i)
        || (!strict && packets_cut(s2[i], s2[i + 1], p2[i], tile, tile.tile_parts@[i])) by {
        if i < sts.len() - 1 {
            assert(s2[i] == sts[i] && s2[i + 1] == sts[i + 1] && p2[i] == prs[i] && p2[i + 1] == prs[i + 1]);
            assert(tile_part_packets(sts[i], sts[i + 1], prs[i], prs[i + 1], tile, i) || (!strict && packets_cut(
                sts[i],
                sts[i + 1],
                prs[i],
                tile,
                tile.tile_parts@[i],
            )));
        }
    }
}

/// Read the packets of all tile-parts of a tile, in the order of the
/// progression. In strict mode, a tile-part that cannot be read fully is an
/// error; otherwise the packets read so far are kept.
#[verifier::rlimit(80)]
#[verifier::spinoff_prover]
pub fn parse<'a>(
    tile: &Tile<'a>,
    progression: &mut ProgressionIterator<'_>,
    header: &Header<'_>,
    storage: &mut DecompositionStorage<'a>,
) -> (r: Result<()>)
    requires
        old(storage).trees_ok(),
        old(progression).wf(),
    ensures
        storage_kept(&*old(storage), &*final(storage)),
        !header.strict ==> r is Ok,
        r is Err ==> r == Err::<(), DecodeError>(DecodeError::Tile(TileError::Invalid)),
        tile_parts_empty(tile) ==> r is Ok && *final(storage) == *old(storage) && *final(progression) == *old(progression),
        header.strict && (exists|i: int| 0 <= i < tile.tile_parts@.len() && !tile_part_fits(#[trigger] tile.tile_parts@[i]))
            ==> r is Err,
        header.strict && old(progression).remaining() <= 0 && (exists|i: int|
            0 <= i < tile.tile_parts@.len() && tile_part_fits(#[trigger] tile.tile_parts@[i]) && !tile_part_empty(
                tile.tile_parts@[i],
            )) ==> r is Err,
        final(progression).pos() >= old(progression).pos(),
        tile.tile_parts@.len() > 0 && tile_part_fits(tile.tile_parts@[0]) && !tile_part_empty(tile.tile_parts@[0])
            && !old(progression).none_within(old(progression).pos(), old(progression).end()) ==> final(progression).pos()
            > old(progression).pos(),
        r is Ok ==> exists|sts: Seq<DecompositionStorage>, prs: Seq<ProgressionIterator>|
            #[trigger] tile_parts_read(sts, prs, tile, header.strict) && sts.len() == tile.tile_parts@.len() + 1 && sts[0]
                == *old(storage) && sts.last() == *final(storage) && prs[0] == *old(progression) && prs.last()
                == *final(progression),
{
    let ghost s0 = *storage;
    let ghost p0 = *progression;
    let ghost mut tsts: Seq<DecompositionStorage> = seq![*storage];
    let ghost mut tprs: Seq<ProgressionIterator> = seq![*progression];
    let mut i: usize = 0;
    while i < tile.tile_parts.len()
        invariant
            storage_kept(&s0, &*storage),
            s0 == *old(storage),
            p0 == *old(progression),
            progression.wf(),
            i <= tile.tile_parts@.len(),
            tile_parts_empty(tile) ==> *storage == s0 && *progression == p0,
            header.strict ==> progression.remaining() <= p0.remaining(),
            progression.pos() >= p0.pos(),
            i == 0 ==> *progression == p0,
            i > 0 && tile_part_fits(tile.tile_parts@[0]) && !tile_part_empty(tile.tile_parts@[0]) && !p0.none_within(
                p0.pos(),
                p0.end(),
            ) ==> progression.pos() > p0.pos(),
            header.strict ==> forall|j: int| 0 <= j < i ==> tile_part_fits(#[trigger] tile.tile_parts@[j]),
            header.strict && p0.remaining() <= 0 ==> forall|j: int|
                0 <= j < i ==> !(tile_part_fits(#[trigger] tile.tile_parts@[j]) && !tile_part_empty(tile.tile_parts@[j])),
            tile_parts_read(tsts, tprs, tile, header.strict),
            tsts.len() == i + 1,
            tsts[0] == s0,
            tsts.last() == *storage,
            tprs[0] == p0,
            tprs.last() == *progression,
        decreases tile.tile_parts@.len() - i,
    {
        let tile_part = tile.tile_parts[i];
        let ghost st_i = *storage;
        let ghost pr_i = *progression;
        proof {
            if tile_parts_empty(tile) {
                assert(tile_part_fits(tile.tile_parts@[i as int]) && tile_part_empty(tile.tile_parts@[i as int]));
            }
        }
        let read = parse_inner(&tile_part, progression, tile, storage);
        if read.is_none() && header.strict {
            return Err(DecodeError::Tile(TileError::Invalid));
        }
        proof {
            assert(tile_part == tile.tile_parts@[i as int]);
            if read is Some {
                assert(tile_part_packets(st_i, *storage, pr_i, *progression, tile, i as int));
            } else {
                assert(packets_cut(st_i, *storage, pr_i, tile, tile.tile_parts@[i as int]));
            }
            lemma_tile_parts_push(tsts, tprs, tile, header.strict, *storage, *progression);
            tsts = tsts.push(*storage);
            tprs = tprs.push(*progression);
        }
        i = i + 1;
    }
    proof {
        assert(tile_parts_read(tsts, tprs, tile, header.strict));
    }
    Ok(())
}

/// Every tile-part of the tile fits and holds no packet.
pub open spec fn tile_parts_empty(tile: &Tile) -> bool {
    forall|i: int|
        0 <= i < tile.tile_parts@.len() ==> tile_part_fits(#[trigger] tile.tile_parts@[i]) && tile_part_empty(
            tile.tile_parts@[i],
        )
}

} // verus!
