//! The component mapping box (cmap), defined in I.5.3.5.
use crate::byte_reader::Reader;
use crate::j2c::codestream::u16_at;
use crate::jp2::ImageBoxes;
use vstd::prelude::*;

verus! {

/// The contents of a component mapping box.
pub struct ComponentMappingBox {
    pub entries: Vec<ComponentMappingEntry>,
}

/// How one channel is made from a component.
#[derive(Debug, Clone, Copy, PartialEq, Eq, Structural)]
pub struct ComponentMappingEntry {
    pub component_index: u16,
    pub mapping_type: ComponentMappingType,
}

/// A component is used directly, or through a column of the palette.
#[derive(Debug, Clone, Copy, PartialEq, Eq, Structural)]
pub enum ComponentMappingType {
    Direct,
    Palette { column: u8 },
}

/// Entry `i` of the box in `b`, if its mapping type is known.
pub open spec fn cmap_entry_spec(b: Seq<u8>, i: int) -> Option<ComponentMappingEntry> {
    let t = b[4 * i + 2];
    if t == 0 {
        Some(ComponentMappingEntry { component_index: u16_at(b, 4 * i) as u16, mapping_type: ComponentMappingType::Direct })
    } else if t == 1 {
        Some(ComponentMappingEntry {
            component_index: u16_at(b, 4 * i) as u16,
            mapping_type: ComponentMappingType::Palette { column: b[4 * i + 3] },
        })
    } else {
        None
    }
}

/// The box in `b` can be read: it consists of whole entries of known types.
pub open spec fn cmap_ok(b: Seq<u8>) -> bool {
    &&& b.len() % 4 == 0
    &&& forall|i: int| 0 <= i < b.len() / 4 ==> (#[trigger] cmap_entry_spec(b, i)) is Some
}

/// Read a component mapping box.
pub fn parse(boxes: &mut ImageBoxes, data: &[u8]) -> (r: Option<()>)
    ensures
        r is Some <==> cmap_ok(data@),
        r is Some ==> (final(boxes).component_mapping matches Some(c) && c.entries@.len() == data@.len() / 4
            && forall|i: int| 0 <= i < c.entries@.len() ==> Some(#[trigger] c.entries@[i]) == cmap_entry_spec(data@, i)),
        r is None ==> final(boxes).component_mapping == old(boxes).component_mapping,
        final(boxes).color_specification == old(boxes).color_specification,
        final(boxes).palette == old(boxes).palette,
        final(boxes).channel_definition == old(boxes).channel_definition,
{
    let mut reader = Reader::new(data);
    let mut entries: Vec<ComponentMappingEntry> = Vec::new();
    let ghost b = data@;

    while !reader.at_end()
        invariant
            reader.wf(),
            reader.bytes() == b,
            b == data@,
            reader.pos() == 4 * entries@.len(),
            forall|i: int| 0 <= i < entries@.len() ==> Some(#[trigger] entries@[i]) == cmap_entry_spec(b, i),
        decreases b.len() - reader.pos(),
    {
        let ghost i = entries@.len() as int;
        let component_index = match reader.read_u16() {
            Some(v) => v,
            None => {
                proof {
                    assert(b.len() % 4 != 0) by (nonlinear_arith)
                        requires 4 * i < b.len(), 4 * i + 2 > b.len();
                }
                return None;
            },
        };
        let mapping_type = match reader.read_byte() {
            Some(v) => v,
            None => {
                proof {
                    assert(b.len() % 4 != 0) by (nonlinear_arith)
                        requires 4 * i + 2 == b.len();
                }
                return None;
            },
        };
        let palette_column = match reader.read_byte() {
            Some(v) => v,
            None => {
                proof {
                    assert(b.len() % 4 != 0) by (nonlinear_arith)
                        requires 4 * i + 3 == b.len();
                }
                return None;
            },
        };
        let mapping_type = if mapping_type == 0 {
            ComponentMappingType::Direct
        } else if mapping_type == 1 {
            ComponentMappingType::Palette { column: palette_column }
        } else {
            proof {
                assert(i < b.len() / 4) by (nonlinear_arith)
                    requires 4 * i + 4 <= b.len(), i >= 0;
                assert(cmap_entry_spec(b, i) is None);
            }
            return None;
        };
        proof {
            assert(reader.bytes().subrange(4 * i, 4 * i + 2) == b.subrange(4 * i, 4 * i + 2));
        }
        entries.push(ComponentMappingEntry { component_index, mapping_type });
    }
    proof {
        let n = entries@.len() as int;
        assert(b.len() == 4 * n);
        assert(b.len() % 4 == 0 && b.len() / 4 == n) by (nonlinear_arith)
            requires b.len() == 4 * n, n >= 0;
        assert forall|i: int| 0 <= i < b.len() / 4 implies (#[trigger] cmap_entry_spec(b, i)) is Some by {
            assert(Some(entries@[i]) == cmap_entry_spec(b, i));
        }
    }

    boxes.component_mapping = Some(ComponentMappingBox { entries });
    Some(())
}

} // verus!
