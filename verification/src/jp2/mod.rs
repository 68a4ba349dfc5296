//! Reading a JP2 file, defined in Annex I.

pub mod cdef;
pub mod cmap;
pub mod colr;
pub mod icc;
pub mod pclr;

use crate::boxes::{
    box_spec, read_box, CHANNEL_DEFINITION, COLOUR_SPECIFICATION, COMPONENT_MAPPING, CONTIGUOUS_CODESTREAM, FILE_TYPE,
    JP2_HEADER, JP2_SIGNATURE, PALETTE,
};
use crate::byte_reader::Reader;
use crate::j2c::codestream::u16_at;
use crate::error::{DecodeError, FormatError, Result, ValidationError};
use crate::j2c::{parse_raw, raw_header_matches, ParsedCodestream};
use crate::jp2::cdef::ChannelDefinitionBox;
use crate::jp2::cmap::{ComponentMappingBox, ComponentMappingEntry, ComponentMappingType};
use crate::jp2::colr::ColorSpecificationBox;
use crate::jp2::pclr::PaletteBox;
use crate::{alpha_from_boxes, color_space_matches, unsupported_enumerated, repair_spec, resolve_alpha_and_color_space, DecodeSettings, Image};
use crate::j2c::codestream::siz_csiz;
use vstd::prelude::*;

verus! {

/// The boxes of the JP2 header that the decoder uses.
pub struct ImageBoxes {
    pub color_specification: Option<ColorSpecificationBox>,
    pub channel_definition: Option<ChannelDefinitionBox>,
    pub palette: Option<PaletteBox>,
    pub component_mapping: Option<ComponentMappingBox>,
}

impl ImageBoxes {
    /// No box has been read.
    pub fn new() -> (r: Self)
        ensures
            r.color_specification is None,
            r.channel_definition is None,
            r.palette is None,
            r.component_mapping is None,
    {
        ImageBoxes { color_specification: None, channel_definition: None, palette: None, component_mapping: None }
    }

    /// A channel definition box, when there is one, defines a channel, and
    /// a palette has at most 255 columns.
    pub open spec fn wf(&self) -> bool {
        &&& self.channel_definition matches Some(c) ==> c.channel_definitions@.len() > 0
        &&& self.palette matches Some(p) ==> p.columns@.len() <= 255
    }
}

/// Read the boxes inside the JP2 header box. Reading a palette box resets
/// the target resolution of the settings.
fn parse_header_boxes(data: &[u8], settings: &mut DecodeSettings) -> (r: Result<ImageBoxes>)
    requires
        old(settings).wf(),
    ensures
        final(settings).wf(),
        final(settings).strict == old(settings).strict,
        final(settings).resolve_palette_indices == old(settings).resolve_palette_indices,
        r matches Ok(b) ==> b.wf(),
        r is Ok <==> (!top_boxes(data@, 0).1 && header_children_ok(data@, top_boxes(data@, 0).0, old(settings).strict, false)),
        r is Err ==> r == Err::<ImageBoxes, DecodeError>(DecodeError::Format(FormatError::InvalidBox)),
        r matches Ok(b) ==> header_boxes_read(&b, data@, top_boxes(data@, 0).0),
        r matches Ok(b) ==> (b.component_mapping is Some <==> has_box(top_boxes(data@, 0).0, COMPONENT_MAPPING)),
        r matches Ok(b) ==> (b.palette is Some ==> has_box(top_boxes(data@, 0).0, PALETTE)),
        r is Ok ==> final(settings).target_resolution == (if has_box(top_boxes(data@, 0).0, PALETTE) {
            None
        } else {
            old(settings).target_resolution
        }),
{
    let mut boxes = ImageBoxes::new();
    let mut reader = Reader::new(data);
    let ghost strict = settings.strict;
    let ghost goal = !top_boxes(data@, 0).1 && header_children_ok(data@, top_boxes(data@, 0).0, strict, false);
    let ghost all = top_boxes(data@, 0).0;
    let ghost mut seen_pclr = false;
    let ghost mut done: Seq<(u32, int, int)> = Seq::empty();
    proof {
        assert(done + top_boxes(data@, 0).0 =~= all);
    }

    // Read child boxes within JP2 Header box
    while !reader.at_end()
        invariant
            reader.wf(),
            reader.bytes() == data@,
            settings.wf(),
            settings.strict == old(settings).strict,
            settings.resolve_palette_indices == old(settings).resolve_palette_indices,
            strict == old(settings).strict,
            boxes.wf(),
            goal == (!top_boxes(data@, 0).1 && header_children_ok(data@, top_boxes(data@, 0).0, strict, false)),
            goal == (!top_boxes(data@, reader.pos()).1 && header_children_ok(
                data@,
                top_boxes(data@, reader.pos()).0,
                strict,
                boxes.color_specification is Some,
            )),
            all == top_boxes(data@, 0).0,
            has_box(all, COMPONENT_MAPPING) == (boxes.component_mapping is Some || has_box(
                top_boxes(data@, reader.pos()).0,
                COMPONENT_MAPPING,
            )),
            has_box(all, PALETTE) == (seen_pclr || has_box(top_boxes(data@, reader.pos()).0, PALETTE)),
            seen_pclr ==> settings.target_resolution is None,
            !seen_pclr ==> settings.target_resolution == old(settings).target_resolution,
            boxes.palette is Some ==> seen_pclr,
            all == done + top_boxes(data@, reader.pos()).0,
            header_boxes_read(&boxes, data@, done),
        decreases reader.bytes().len() - reader.pos(),
    {
        let ghost p = reader.pos();
        let ghost has_colr = boxes.color_specification is Some;
        let ghost boxes0 = boxes;
        let child_box = match read_box(&mut reader) {
            Some(b) => b,
            None => {
                proof {
                    assert(top_boxes(data@, p).1);
                }
                return Err(DecodeError::Format(FormatError::InvalidBox));
            },
        };
        let ghost x = (child_box.box_type, reader.pos() - child_box.data@.len(), reader.pos());
        proof {
            assert(reader.pos() > p);
            let x = (child_box.box_type, reader.pos() - child_box.data@.len(), reader.pos());
            let rest = top_boxes(data@, reader.pos());
            assert(top_boxes(data@, p).0 == seq![x] + rest.0);
            assert((seq![x] + rest.0).drop_first() =~= rest.0);
            assert((seq![x] + rest.0)[0] == x);
            assert(data@.subrange(x.1, x.2) == child_box.data@);
        }
        if child_box.box_type == CHANNEL_DEFINITION {
            if cdef::parse(&mut boxes, child_box.data).is_none() && settings.strict {
                return Err(DecodeError::Format(FormatError::InvalidBox));
            }
            // If not strict decoding, just assume default
            // configuration.
        } else if child_box.box_type == COLOUR_SPECIFICATION {
            match colr::parse(&mut boxes, child_box.data) {
                Ok(()) => {},
                Err(e) => {
                    proof {
                        assert(!header_children_ok(data@, top_boxes(data@, p).0, strict, has_colr));
                    }
                    return Err(e);
                },
            }
        } else if child_box.box_type == PALETTE {
            if pclr::parse(&mut boxes, child_box.data).is_none() && settings.strict {
                return Err(DecodeError::Format(FormatError::InvalidBox));
            }
            // If we have a palettized image, decoding at a
            // lower resolution will corrupt it, so we can't do
            // it in this case.
            settings.target_resolution = None;
            proof {
                seen_pclr = true;
            }
        } else if child_box.box_type == COMPONENT_MAPPING {
            if cmap::parse(&mut boxes, child_box.data).is_none() {
                return Err(DecodeError::Format(FormatError::InvalidBox));
            }
        }
        proof {
            let rest = top_boxes(data@, reader.pos()).0;
            let nd = done.push(x);
            assert(nd.drop_last() =~= done);
            assert(nd.last() == x);
            assert(all =~= nd + rest);
            assert(header_boxes_read(&boxes, data@, nd));
            done = nd;
        }
    }
    proof {
        assert(done =~= all);
    }
    Ok(boxes)
}

/// The first of the boxes `bs` that has type `t`, by its byte range.
pub open spec fn first_of(bs: Seq<(u32, int, int)>, t: u32) -> Option<(int, int)>
    decreases bs.len(),
{
    if bs.len() == 0 {
        None
    } else {
        match first_of(bs.drop_last(), t) {
            Some(r) => Some(r),
            None => if bs.last().0 == t {
                Some((bs.last().1, bs.last().2))
            } else {
                None
            },
        }
    }
}

/// The data `d` of a child box of type `t` can be read: a channel
/// definition, palette or component mapping box by its own rules; any
/// other box is not read.
pub open spec fn child_readable(t: u32, d: Seq<u8>) -> bool {
    if t == CHANNEL_DEFINITION {
        cdef::cdef_ok(d)
    } else if t == PALETTE {
        pclr::pclr_ok(d)
    } else if t == COMPONENT_MAPPING {
        cmap::cmap_ok(d)
    } else {
        true
    }
}

/// The last of the boxes `bs` of `b` that has type `t` and can be read.
pub open spec fn last_readable(b: Seq<u8>, bs: Seq<(u32, int, int)>, t: u32) -> Option<(int, int)>
    decreases bs.len(),
{
    if bs.len() == 0 {
        None
    } else if bs.last().0 == t && child_readable(t, b.subrange(bs.last().1, bs.last().2)) {
        Some((bs.last().1, bs.last().2))
    } else {
        last_readable(b, bs.drop_last(), t)
    }
}

/// The channel definition box holds the definitions of the data `d`: one
/// per entry, each at the place of its channel.
pub open spec fn cdef_matches(c: ChannelDefinitionBox, d: Seq<u8>) -> bool {
    &&& c.channel_definitions@.len() == u16_at(d, 0)
    &&& forall|i: int| 0 <= i < u16_at(d, 0) ==> cdef::entry_spec(d, i) == Some(
        #[trigger] c.channel_definitions@[cdef::entry_index(d, i)],
    )
}

/// The palette box holds the columns and entries of the data `d`.
pub open spec fn pclr_matches(p: PaletteBox, d: Seq<u8>) -> bool {
    &&& p.columns@.len() == pclr::num_columns(d)
    &&& forall|j: int| 0 <= j < pclr::num_columns(d) ==> (#[trigger] p.columns@[j]).bit_depth == pclr::column_depth(d, j)
    &&& p.entries@.len() == u16_at(d, 0)
    &&& forall|e: int| 0 <= e < p.entries@.len() ==> (#[trigger] p.entries@[e])@.len() == pclr::num_columns(d)
    &&& forall|e: int, j: int|
        0 <= e < p.entries@.len() && 0 <= j < pclr::num_columns(d) ==> (#[trigger] p.entries@[e]@[j]) == pclr::palette_value(
            d,
            e,
            j,
        )
}

/// The component mapping box holds the entries of the data `d`.
pub open spec fn cmap_matches(c: ComponentMappingBox, d: Seq<u8>) -> bool {
    &&& c.entries@.len() == d.len() / 4
    &&& forall|i: int| 0 <= i < c.entries@.len() ==> Some(#[trigger] c.entries@[i]) == cmap::cmap_entry_spec(d, i)
}

/// The boxes read from the child boxes `bs` of a JP2 header box `b`: the
/// colour specification of the first colour specification box, and the
/// channel definitions, palette and component mapping of the last such box
/// that can be read; what is not there stays empty.
pub open spec fn header_boxes_read(boxes: &ImageBoxes, b: Seq<u8>, bs: Seq<(u32, int, int)>) -> bool {
    &&& match first_of(bs, COLOUR_SPECIFICATION) {
        Some((s, e)) => boxes.color_specification matches Some(c) && colr::colr_matches(&c.color_space, b.subrange(s, e)),
        None => boxes.color_specification is None,
    }
    &&& match last_readable(b, bs, CHANNEL_DEFINITION) {
        Some((s, e)) => boxes.channel_definition matches Some(c) && cdef_matches(c, b.subrange(s, e)),
        None => boxes.channel_definition is None,
    }
    &&& match last_readable(b, bs, PALETTE) {
        Some((s, e)) => boxes.palette matches Some(p) && pclr_matches(p, b.subrange(s, e)),
        None => boxes.palette is None,
    }
    &&& match last_readable(b, bs, COMPONENT_MAPPING) {
        Some((s, e)) => boxes.component_mapping matches Some(c) && cmap_matches(c, b.subrange(s, e)),
        None => boxes.component_mapping is None,
    }
}

/// One of the boxes `bs` has type `t`.
pub open spec fn has_box(bs: Seq<(u32, int, int)>, t: u32) -> bool
    decreases bs.len(),
{
    bs.len() > 0 && (bs[0].0 == t || has_box(bs.drop_first(), t))
}

/// The child boxes `bs` of a JP2 header box `b` are accepted: a channel
/// definition or palette box that cannot be read is refused in strict mode
/// only, a component mapping box that cannot be read always, and the
/// first colour specification box must be readable, later ones are
/// ignored.
pub open spec fn header_children_ok(b: Seq<u8>, bs: Seq<(u32, int, int)>, strict: bool, has_colr: bool) -> bool
    decreases bs.len(),
{
    if bs.len() == 0 {
        true
    } else {
        let (t, start, end) = bs[0];
        let d = b.subrange(start, end);
        let refused = (t == CHANNEL_DEFINITION && strict && !cdef::cdef_ok(d)) || (t == COLOUR_SPECIFICATION && !has_colr
            && colr::colr_spec(d) is None) || (t == PALETTE && strict && !pclr::pclr_ok(d)) || (t
            == COMPONENT_MAPPING && !cmap::cmap_ok(d));
        !refused && header_children_ok(b, bs.drop_first(), strict, has_colr || t == COLOUR_SPECIFICATION)
    }
}

/// The component mapping that maps component 0 through every palette
/// column, used when a palette comes without a component mapping box.
fn palette_mapping(num_columns: usize) -> (r: ComponentMappingBox)
    requires
        num_columns <= 256,
    ensures
        r.entries@.len() == num_columns,
        forall|i: int| 0 <= i < num_columns ==> (#[trigger] r.entries@[i]) == (ComponentMappingEntry {
            component_index: 0,
            mapping_type: ComponentMappingType::Palette { column: i as u8 },
        }),
{
    let mut entries: Vec<ComponentMappingEntry> = Vec::new();
    let mut i: usize = 0;
    while i < num_columns
        invariant
            i <= num_columns <= 256,
            entries@.len() == i,
            forall|j: int| 0 <= j < i ==> (#[trigger] entries@[j]) == (ComponentMappingEntry {
                component_index: 0,
                mapping_type: ComponentMappingType::Palette { column: j as u8 },
            }),
        decreases num_columns - i,
    {
        entries.push(ComponentMappingEntry { component_index: 0, mapping_type: ComponentMappingType::Palette { column: i as u8 } });
        i = i + 1;
    }
    ComponentMappingBox { entries }
}

/// The boxes at the top level of a JP2 file from byte `pos` on, with their
/// types and where their contents lie, up to the end of the data or the
/// first box that cannot be read, which the boolean tells.
pub open spec fn top_boxes(b: Seq<u8>, pos: int) -> (Seq<(u32, int, int)>, bool)
    decreases b.len() - pos,
{
    if pos >= b.len() {
        (Seq::empty(), false)
    } else {
        match box_spec(b, pos) {
            None => (Seq::empty(), true),
            Some((t, start, end)) => if end <= pos || end > b.len() {
                (Seq::empty(), true)
            } else {
                let (rest, bad) = top_boxes(b, end);
                (seq![(t, start, end)] + rest, bad)
            },
        }
    }
}

/// Where the contents of the last box of type `t` lie.
pub open spec fn last_box(bs: Seq<(u32, int, int)>, t: u32) -> Option<(int, int)>
    decreases bs.len(),
{
    if bs.len() == 0 {
        None
    } else if bs.last().0 == t {
        Some((bs.last().1, bs.last().2))
    } else {
        last_box(bs.drop_last(), t)
    }
}

/// A box of type `t` among the first boxes is one among them all.
proof fn lemma_last_box_concat(a: Seq<(u32, int, int)>, b: Seq<(u32, int, int)>, t: u32)
    requires
        last_box(a, t) is Some,
    ensures
        last_box(a + b, t) is Some,
    decreases b.len(),
{
    if b.len() == 0 {
        assert(a + b =~= a);
    } else {
        assert((a + b).drop_last() =~= a + b.drop_last());
        lemma_last_box_concat(a, b.drop_last(), t);
    }
}

/// The signature box and the file type box open the file: where the boxes
/// after them start.
pub open spec fn jp2_preamble(b: Seq<u8>) -> Option<int> {
    match box_spec(b, 0) {
        Some((t, _s, e)) => if t == JP2_SIGNATURE {
            match box_spec(b, e) {
                Some((t2, _s2, e2)) => if t2 == FILE_TYPE {
                    Some(e2)
                } else {
                    None
                },
                None => None,
            }
        } else {
            None
        },
        None => None,
    }
}

/// The file opens with the signature and file type boxes, and the boxes
/// after them hold neither a JP2 header box nor a codestream box.
pub open spec fn no_image_boxes(b: Seq<u8>) -> bool {
    jp2_preamble(b) matches Some(q) && last_box(top_boxes(b, q).0, JP2_HEADER) is None && last_box(
        top_boxes(b, q).0,
        CONTIGUOUS_CODESTREAM,
    ) is None
}

/// The image is that of the JP2 file `b`: the file opens with the
/// signature and file type boxes; its boxes could all be read, unless the
/// reading is not strict; it has a JP2 header box; and the header and the
/// tile-parts of the image are those of the codestream of its last
/// codestream box.
pub open spec fn jp2_file_matches(img: &Image, b: Seq<u8>, strict: bool) -> bool {
    jp2_preamble(b) matches Some(q) && {
        let (bs, bad) = top_boxes(b, q);
        &&& !(bad && strict)
        &&& last_box(bs, JP2_HEADER) is Some
        &&& last_box(bs, CONTIGUOUS_CODESTREAM) matches Some((s, e)) && {
            let stream = b.subrange(s, e);
            &&& raw_header_matches(&img.header, stream)
            &&& img.codestream@ == stream.subrange(stream.len() - img.codestream@.len(), stream.len() as int)
        }
    }
}

/// The box `x` of the file `b` can be read: a JP2 header box has child
/// boxes that are accepted, and a codestream box holds a main header that
/// passes.
pub open spec fn box_passes(b: Seq<u8>, x: (u32, int, int), strict: bool) -> bool {
    let d = b.subrange(x.1, x.2);
    &&& x.0 == JP2_HEADER ==> !top_boxes(d, 0).1 && header_children_ok(d, top_boxes(d, 0).0, strict, false)
    &&& x.0 == CONTIGUOUS_CODESTREAM ==> crate::j2c::raw_header_passes(d)
}

/// The file `b` opens with the signature and file type boxes, all its boxes
/// can be read (unless the reading is not strict), each JP2 header and
/// codestream box among them can be read, and it has both.
pub open spec fn jp2_boxes_pass(b: Seq<u8>, strict: bool) -> bool {
    jp2_preamble(b) matches Some(q) && {
        let (bs, bad) = top_boxes(b, q);
        &&& !(bad && strict)
        &&& forall|i: int| 0 <= i < bs.len() ==> box_passes(b, #[trigger] bs[i], strict)
        &&& last_box(bs, JP2_HEADER) is Some
        &&& last_box(bs, CONTIGUOUS_CODESTREAM) is Some
    }
}

/// The entries of the component mapping that maps component 0 through
/// each of `k` palette columns.
pub open spec fn palette_entries(k: int) -> Seq<ComponentMappingEntry> {
    Seq::new(
        k as nat,
        |i: int| ComponentMappingEntry { component_index: 0, mapping_type: ComponentMappingType::Palette { column: i as u8 } },
    )
}

/// The data of the last box of type `t` among the top-level boxes of the
/// JP2 file `b` (empty where there is none).
pub open spec fn last_top_data(b: Seq<u8>, t: u32) -> Seq<u8> {
    match jp2_preamble(b) {
        Some(q) => match last_box(top_boxes(b, q).0, t) {
            Some((s, e)) => b.subrange(s, e),
            None => Seq::empty(),
        },
        None => Seq::empty(),
    }
}

/// The boxes that reading the JP2 file `b` gives: those of the children of
/// its last JP2 header box, where a palette without a component mapping
/// maps component 0 through each of its columns.
pub open spec fn jp2_boxes_read(boxes: &ImageBoxes, b: Seq<u8>) -> bool {
    let d = last_top_data(b, JP2_HEADER);
    let bs = top_boxes(d, 0).0;
    &&& match first_of(bs, COLOUR_SPECIFICATION) {
        Some((s, e)) => boxes.color_specification matches Some(c) && colr::colr_matches(&c.color_space, d.subrange(s, e)),
        None => boxes.color_specification is None,
    }
    &&& match last_readable(d, bs, CHANNEL_DEFINITION) {
        Some((s, e)) => boxes.channel_definition matches Some(c) && cdef_matches(c, d.subrange(s, e)),
        None => boxes.channel_definition is None,
    }
    &&& match last_readable(d, bs, PALETTE) {
        Some((s, e)) => boxes.palette matches Some(p) && pclr_matches(p, d.subrange(s, e)),
        None => boxes.palette is None,
    }
    &&& match last_readable(d, bs, COMPONENT_MAPPING) {
        Some((s, e)) => boxes.component_mapping matches Some(c) && cmap_matches(c, d.subrange(s, e)),
        None => match boxes.palette {
            Some(p) => boxes.component_mapping matches Some(c) && c.entries@ == palette_entries(p.columns@.len() as int),
            None => boxes.component_mapping is None,
        },
    }
}

/// The first colour specification box of the last JP2 header box of `b`
/// names an enumerated colour space that is not supported.
pub open spec fn colr_unsupported_at(b: Seq<u8>) -> bool {
    let d = last_top_data(b, JP2_HEADER);
    match first_of(top_boxes(d, 0).0, COLOUR_SPECIFICATION) {
        Some((s, e)) => colr::colr_spec(d.subrange(s, e)) matches Some((1, Some(x), _)) && !(x is Cmyk || x is Srgb
            || x is EsRgb || x is Sycc || x is Greyscale || x is RommRgb || x is CieLab),
        None => false,
    }
}

/// The number of components for which the colour space of boxes `bx` is
/// chosen, for a codestream of `n` components.
pub open spec fn components_for_boxes(bx: &ImageBoxes, n: int, settings: &DecodeSettings) -> int {
    if settings.resolve_palette_indices && bx.palette is Some {
        bx.palette->0.columns@.len() as int
    } else {
        n
    }
}

/// The colour space and alpha flag that the boxes `bx` give an image of `n`
/// components: a colour space that the boxes name, repaired to fit.
pub open spec fn colour_from_boxes(bx: &ImageBoxes, n: int, settings: &DecodeSettings, cs: crate::ColorSpace) -> Option<(crate::ColorSpace, bool)> {
    repair_spec(cs, alpha_from_boxes(bx), bx.palette is Some, settings, n)
}

/// Every reading of the boxes of the JP2 file `b`, with every colour space
/// that they name, gives a colour space and alpha flag that fit the
/// components of its last codestream box.
pub open spec fn colour_fits(b: Seq<u8>, settings: &DecodeSettings) -> bool {
    let n = siz_csiz(last_top_data(b, crate::boxes::CONTIGUOUS_CODESTREAM), 4);
    forall|bx: ImageBoxes, cs: crate::ColorSpace|
        #[trigger] jp2_boxes_read(&bx, b) && #[trigger] color_space_matches(&cs, &bx, components_for_boxes(&bx, n, settings) as usize)
            ==> colour_from_boxes(&bx, n, settings, cs) is Some
}

/// What reading the JP2 file `b` promises of the image: its boxes are
/// those of the file, its codestream has as many components as the SIZ
/// segment of the last codestream box says, and its colour space and alpha
/// flag are a colour space that the boxes name, repaired to fit.
pub open spec fn jp2_image_read(img: &Image, b: Seq<u8>, settings: &DecodeSettings) -> bool {
    let n = img.header.component_infos@.len() as int;
    &&& jp2_boxes_read(&img.boxes, b)
    &&& n == siz_csiz(last_top_data(b, CONTIGUOUS_CODESTREAM), 4)
    &&& !colr_unsupported_at(b)
    &&& exists|cs: crate::ColorSpace|
        color_space_matches(&cs, &img.boxes, components_for_boxes(&img.boxes, n, settings) as usize)
            && colour_from_boxes(&img.boxes, n, settings, cs) == Some((img.color_space, img.has_alpha))
}

/// Read a JP2 file: the signature and file type boxes, then the JP2 header
/// box and the codestream box.
#[verifier::rlimit(80)]
#[verifier::spinoff_prover]
pub fn parse<'a>(data: &'a [u8], settings: DecodeSettings) -> (r: Result<Image<'a>>)
    requires
        data@.len() * 8 <= usize::MAX,
        settings.wf(),
    ensures
        r matches Ok(img) ==> img.wf(),
        !(box_spec(data@, 0) matches Some((t, _s, _e)) && t == JP2_SIGNATURE) ==> r == Err::<Image<'a>, DecodeError>(
            DecodeError::Format(FormatError::InvalidSignature),
        ),
        box_spec(data@, 0) matches Some((t, _s, e)) && t == JP2_SIGNATURE && !(box_spec(data@, e) matches Some((
            t2,
            _s2,
            _e2,
        )) && t2 == FILE_TYPE) ==> r == Err::<Image<'a>, DecodeError>(DecodeError::Format(FormatError::InvalidFileType)),
        no_image_boxes(data@) ==> r == Err::<Image<'a>, DecodeError>(DecodeError::Format(FormatError::InvalidBox)),
        r matches Ok(img) ==> jp2_file_matches(&img, data@, settings.strict),
        jp2_preamble(data@) matches Some(q) && last_box(top_boxes(data@, q).0, JP2_HEADER) is None ==> r is Err,
        jp2_preamble(data@) matches Some(q) && last_box(top_boxes(data@, q).0, CONTIGUOUS_CODESTREAM) is None ==> r is Err,
        r matches Ok(img) ==> {
            &&& img.settings.strict == settings.strict
            &&& img.settings.resolve_palette_indices == settings.resolve_palette_indices
            &&& img.settings.target_resolution is None || img.settings.target_resolution == settings.target_resolution
            &&& img.boxes.palette is Some ==> img.settings.target_resolution is None
        },
        r matches Ok(img) ==> (jp2_preamble(data@) matches Some(q) && last_box(top_boxes(data@, q).0, JP2_HEADER) matches Some(
            (s, e),
        ) && {
            let children = top_boxes(data@.subrange(s, e), 0).0;
            &&& has_box(children, COMPONENT_MAPPING) ==> img.boxes.component_mapping is Some
            &&& !has_box(children, COMPONENT_MAPPING) ==> (img.boxes.palette matches Some(p) ==> img.boxes.component_mapping
                matches Some(c) && c.entries@ == palette_entries(p.columns@.len() as int))
            &&& !has_box(children, COMPONENT_MAPPING) && img.boxes.palette is None ==> img.boxes.component_mapping is None
        }),
        jp2_boxes_pass(data@, settings.strict) ==> r is Ok || r == Err::<Image<'a>, DecodeError>(
            DecodeError::Format(FormatError::Unsupported),
        ) || r == Err::<Image<'a>, DecodeError>(DecodeError::Validation(ValidationError::TooManyChannels)),
        r matches Ok(img) ==> jp2_image_read(&img, data@, &settings),
        jp2_boxes_pass(data@, settings.strict) && colr_unsupported_at(data@) ==> r == Err::<Image<'a>, DecodeError>(
            DecodeError::Format(FormatError::Unsupported),
        ),
        jp2_boxes_pass(data@, settings.strict) && !colr_unsupported_at(data@) ==> r is Ok || r == Err::<
            Image<'a>,
            DecodeError,
        >(DecodeError::Validation(ValidationError::TooManyChannels)),
        jp2_boxes_pass(data@, settings.strict) && !colr_unsupported_at(data@) && colour_fits(data@, &settings) ==> r is Ok,
        jp2_boxes_pass(data@, settings.strict) && r == Err::<Image<'a>, DecodeError>(
            DecodeError::Validation(ValidationError::TooManyChannels),
        ) ==> ({
            let n = siz_csiz(last_top_data(data@, CONTIGUOUS_CODESTREAM), 4);
            exists|bx: ImageBoxes, cs: crate::ColorSpace|
                jp2_boxes_read(&bx, data@) && color_space_matches(&cs, &bx, components_for_boxes(&bx, n, &settings) as usize)
                    && colour_from_boxes(&bx, n, &settings, cs) is None
        }),
{
    let ghost strict0 = settings.strict;
    let ghost settings0 = settings;
    let mut cur = settings;
    let mut reader = Reader::new(data);
    let signature_box = match read_box(&mut reader) {
        Some(b) => b,
        None => return Err(DecodeError::Format(FormatError::InvalidSignature)),
    };
    if signature_box.box_type != JP2_SIGNATURE {
        return Err(DecodeError::Format(FormatError::InvalidSignature));
    }
    let file_type_box = match read_box(&mut reader) {
        Some(b) => b,
        None => return Err(DecodeError::Format(FormatError::InvalidFileType)),
    };
    if file_type_box.box_type != FILE_TYPE {
        return Err(DecodeError::Format(FormatError::InvalidFileType));
    }

    let mut image_boxes: Option<ImageBoxes> = None;
    let mut parsed_codestream: Option<ParsedCodestream<'a>> = None;
    let ghost q = reader.pos();
    let ghost walk = top_boxes(data@, q);
    let ghost mut done: Seq<(u32, int, int)> = Seq::empty();
    proof {
        assert(done + walk.0 =~= walk.0);
    }

    // Read boxes until we find the JP2 Header box
    loop
        invariant_except_break
            walk == (done + top_boxes(data@, reader.pos()).0, top_boxes(data@, reader.pos()).1),
        invariant
            reader.wf(),
            reader.bytes() == data@,
            data@.len() * 8 <= usize::MAX,
            cur.wf(),
            image_boxes matches Some(b) ==> b.wf(),
            parsed_codestream matches Some(pc) ==> pc.header.wf(),
            jp2_preamble(data@) == Some(q),
            walk == top_boxes(data@, q),
            cur.strict == strict0,
            (image_boxes is Some) == (last_box(done, JP2_HEADER) is Some),
            (parsed_codestream is Some) == (last_box(done, CONTIGUOUS_CODESTREAM) is Some),
            parsed_codestream matches Some(pc) ==> last_box(done, CONTIGUOUS_CODESTREAM) matches Some((s, e)) && {
                let stream = data@.subrange(s, e);
                &&& raw_header_matches(&pc.header, stream)
                &&& pc.data@ == stream.subrange(stream.len() - pc.data@.len(), stream.len() as int)
            },
            image_boxes matches Some(b) ==> last_box(done, JP2_HEADER) matches Some((s, e)) && (b.component_mapping is Some
                <==> has_box(top_boxes(data@.subrange(s, e), 0).0, COMPONENT_MAPPING)),
            image_boxes matches Some(b) ==> last_box(done, JP2_HEADER) matches Some((s, e)) && header_boxes_read(
                &b,
                data@.subrange(s, e),
                top_boxes(data@.subrange(s, e), 0).0,
            ),
            cur.resolve_palette_indices == settings0.resolve_palette_indices,
            cur.target_resolution is None || cur.target_resolution == settings0.target_resolution,
            image_boxes matches Some(b) ==> (b.palette is Some ==> cur.target_resolution is None),
            settings0.strict == strict0,
            settings.strict == strict0,
            settings == settings0,
            jp2_boxes_pass(data@, strict0) ==> {
                &&& !walk.1 || !strict0
                &&& forall|i: int| 0 <= i < walk.0.len() ==> box_passes(data@, #[trigger] walk.0[i], strict0)
            },
        ensures
            walk.0 == done,
            walk.1 ==> !cur.strict,
        decreases reader.bytes().len() - reader.pos(),
    {
        if reader.at_end() {
            proof {
                assert(done + Seq::<(u32, int, int)>::empty() =~= done);
            }
            break;
        }
        let ghost p = reader.pos();
        let current_box = match read_box(&mut reader) {
            Some(b) => b,
            None => {
                proof {
                    assert(done + Seq::<(u32, int, int)>::empty() =~= done);
                    assert(top_boxes(data@, p).1);
                }
                if cur.strict {
                    return Err(DecodeError::Format(FormatError::InvalidBox));
                }
                break;
            },
        };
        let ghost x = (current_box.box_type, reader.pos() - current_box.data@.len(), reader.pos());
        proof {
            assert(reader.pos() > p);
            assert(data@.subrange(x.1, x.2) =~= current_box.data@);
            assert(top_boxes(data@, p).0[0] == x);
            if jp2_boxes_pass(data@, strict0) {
                assert(walk.0[done.len() as int] == x);
                assert(box_passes(data@, walk.0[done.len() as int], strict0));
            }
            assert(done + top_boxes(data@, p).0 =~= done.push(x) + top_boxes(data@, reader.pos()).0);
            assert(done.push(x).drop_last() =~= done);
            done = done.push(x);
        }
        if current_box.box_type == JP2_HEADER {
            match parse_header_boxes(current_box.data, &mut cur) {
                Ok(b) => image_boxes = Some(b),
                Err(e) => {
                    proof {
                        lemma_last_box_concat(done, top_boxes(data@, reader.pos()).0, JP2_HEADER);
                        if jp2_boxes_pass(data@, strict0) {
                            assert(box_passes(data@, x, strict0));
                            assert(data@.subrange(x.1, x.2) == current_box.data@);
                        }
                    }
                    return Err(e);
                },
            }
        } else if current_box.box_type == CONTIGUOUS_CODESTREAM {
            match parse_raw(current_box.data, &cur) {
                Ok(pc) => parsed_codestream = Some(pc),
                Err(e) => {
                    proof {
                        lemma_last_box_concat(done, top_boxes(data@, reader.pos()).0, CONTIGUOUS_CODESTREAM);
                        if jp2_boxes_pass(data@, strict0) {
                            assert(box_passes(data@, x, strict0));
                            assert(data@.subrange(x.1, x.2) == current_box.data@);
                        }
                    }
                    return Err(e);
                },
            }
        }
    }

    let mut image_boxes = match image_boxes {
        Some(b) => b,
        None => return Err(DecodeError::Format(FormatError::InvalidBox)),
    };
    let parsed_codestream = match parsed_codestream {
        Some(pc) => pc,
        None => return Err(DecodeError::Format(FormatError::MissingCodestream)),
    };

    let ghost pre = image_boxes;
    proof {
        let (hs, he) = last_box(walk.0, JP2_HEADER)->Some_0;
        assert(header_boxes_read(&pre, data@.subrange(hs, he), top_boxes(data@.subrange(hs, he), 0).0));
    }
    if image_boxes.palette.is_some() && image_boxes.component_mapping.is_none() {
        // In theory, a cmap is required if we have pclr, but since there are
        // some files that don't seem to do so, we assume
        // that all channels are mapped via the palette in case not.
        let num_columns = match &image_boxes.palette {
            Some(p) => p.columns.len(),
            None => 0,
        };
        let mapping = palette_mapping(num_columns);
        proof {
            assert(mapping.entries@ =~= palette_entries(image_boxes.palette->0.columns@.len() as int));
        }
        image_boxes.component_mapping = Some(mapping);
    }

    let ghost n = parsed_codestream.header.component_infos@.len() as int;
    proof {
        let (hs, he) = last_box(walk.0, JP2_HEADER)->Some_0;
        assert(last_top_data(data@, JP2_HEADER) == data@.subrange(hs, he));
        let (cs_, ce_) = last_box(walk.0, CONTIGUOUS_CODESTREAM)->Some_0;
        assert(last_top_data(data@, CONTIGUOUS_CODESTREAM) == data@.subrange(cs_, ce_));
        assert(parsed_codestream.header.size_data.component_sizes@.len() == n);
        assert(jp2_boxes_read(&image_boxes, data@));
        assert(n == siz_csiz(last_top_data(data@, CONTIGUOUS_CODESTREAM), 4));
        assert(crate::components_for_color_space(&image_boxes, &parsed_codestream.header, &cur)
            == components_for_boxes(&image_boxes, n, &settings) as usize);
        assert(unsupported_enumerated(&image_boxes) == colr_unsupported_at(data@));
        assert forall|cs: crate::ColorSpace| repair_spec(cs, alpha_from_boxes(&image_boxes), image_boxes.palette is Some, &cur, n)
            == colour_from_boxes(&image_boxes, n, &settings, cs) by {}
    }
    let resolved = resolve_alpha_and_color_space(&image_boxes, &parsed_codestream.header, &cur);
    let ghost cs = choose|cs: crate::ColorSpace|
        #[trigger] color_space_matches(
            &cs,
            &image_boxes,
            crate::components_for_color_space(&image_boxes, &parsed_codestream.header, &cur),
        ) && match repair_spec(
            cs,
            alpha_from_boxes(&image_boxes),
            image_boxes.palette is Some,
            &cur,
            parsed_codestream.header.component_infos@.len() as int,
        ) {
            Some(v) => resolved == Ok::<(crate::ColorSpace, bool), DecodeError>(v),
            None => resolved == Err::<(crate::ColorSpace, bool), DecodeError>(
                DecodeError::Validation(ValidationError::TooManyChannels),
            ),
        };
    proof {
        if !unsupported_enumerated(&image_boxes) {
            assert(color_space_matches(&cs, &image_boxes, components_for_boxes(&image_boxes, n, &settings) as usize));
            assert(repair_spec(cs, alpha_from_boxes(&image_boxes), image_boxes.palette is Some, &cur, n)
                == colour_from_boxes(&image_boxes, n, &settings, cs));
            if resolved == Err::<(crate::ColorSpace, bool), DecodeError>(DecodeError::Validation(ValidationError::TooManyChannels)) {
                assert(colour_from_boxes(&image_boxes, n, &settings, cs) is None);
            }
        }
    }
    let (color_space, has_alpha) = match resolved {
        Ok(v) => v,
        Err(e) => return Err(e),
    };
    proof {
        assert(colour_from_boxes(&image_boxes, n, &settings, cs) == Some((color_space, has_alpha)));
    }

    Ok(Image {
        codestream: parsed_codestream.data,
        header: parsed_codestream.header,
        boxes: image_boxes,
        settings: cur,
        color_space,
        has_alpha,
    })
}

} // verus!
