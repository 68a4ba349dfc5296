//! The channel definition box (cdef), defined in I.5.3.6.
use crate::byte_reader::Reader;
use crate::j2c::codestream::u16_at;
use crate::jp2::ImageBoxes;
use vstd::prelude::*;

verus! {

/// The contents of a channel definition box.
pub struct ChannelDefinitionBox {
    pub channel_definitions: Vec<ChannelDefinition>,
}

/// The definition of one channel.
#[derive(Debug, Clone, Copy, PartialEq, Eq, Structural)]
pub struct ChannelDefinition {
    pub channel_index: u16,
    pub channel_type: ChannelType,
    pub association: ChannelAssociation,
}

/// What a channel holds.
#[derive(Debug, Clone, Copy, PartialEq, Eq, Structural)]
pub enum ChannelType {
    Colour,
    Opacity,
}

/// The channel type with code `value`, if it is supported.
pub open spec fn channel_type_spec(value: u16) -> Option<ChannelType> {
    if value == 0 {
        Some(ChannelType::Colour)
    } else if value == 1 {
        Some(ChannelType::Opacity)
    } else {
        None
    }
}

impl ChannelType {
    pub fn from_raw(value: u16) -> (r: Option<Self>)
        ensures
            r == channel_type_spec(value),
    {
        if value == 0 {
            Some(ChannelType::Colour)
        } else if value == 1 {
            Some(ChannelType::Opacity)
        } else {
            // We don't support the others.
            None
        }
    }
}

/// Which colour a channel belongs to.
#[derive(Debug, Clone, Copy, PartialEq, Eq, Structural)]
pub enum ChannelAssociation {
    WholeImage,
    Colour(u16),
}

/// The association with code `value`; the code for "unspecified" has none.
pub open spec fn association_spec(value: u16) -> Option<ChannelAssociation> {
    if value == 0 {
        Some(ChannelAssociation::WholeImage)
    } else if value == u16::MAX {
        None
    } else {
        Some(ChannelAssociation::Colour(value))
    }
}

impl ChannelAssociation {
    pub fn from_raw(value: u16) -> (r: Option<Self>)
        ensures
            r == association_spec(value),
    {
        if value == 0 {
            Some(ChannelAssociation::WholeImage)
        } else if value == u16::MAX {
            // Unspecified.
            None
        } else {
            Some(ChannelAssociation::Colour(value))
        }
    }
}

/// The channel index of entry `i` of the box in `b`.
pub open spec fn entry_index(b: Seq<u8>, i: int) -> int {
    u16_at(b, 2 + 6 * i)
}

/// Entry `i` of the box in `b`, if its type and association are supported.
pub open spec fn entry_spec(b: Seq<u8>, i: int) -> Option<ChannelDefinition> {
    match (channel_type_spec(u16_at(b, 4 + 6 * i) as u16), association_spec(u16_at(b, 6 + 6 * i) as u16)) {
        (Some(t), Some(a)) => Some(ChannelDefinition { channel_index: entry_index(b, i) as u16, channel_type: t, association: a }),
        _ => None,
    }
}

/// Some entry among the first `n` has channel index `k`.
pub open spec fn index_used(b: Seq<u8>, n: int, k: int) -> bool {
    exists|i: int| 0 <= i < n && #[trigger] entry_index(b, i) == k
}

/// The box in `b` can be read: it has a positive number of entries, all
/// present and supported, whose channel indices are `0..count` in some
/// order.
pub open spec fn cdef_ok(b: Seq<u8>) -> bool {
    let count = u16_at(b, 0);
    &&& b.len() >= 2
    &&& count > 0
    &&& 2 + 6 * count <= b.len()
    &&& forall|i: int| 0 <= i < count ==> (#[trigger] entry_spec(b, i)) is Some
    &&& forall|i: int| 0 <= i < count ==> #[trigger] entry_index(b, i) < count
    &&& forall|i: int, j: int| 0 <= i < j < count ==> #[trigger] entry_index(b, i) != #[trigger] entry_index(b, j)
    &&& forall|k: int| 0 <= k < count ==> #[trigger] index_used(b, count, k)
}

/// Read a channel definition box. The definitions come out ordered by
/// channel index.
pub fn parse(boxes: &mut ImageBoxes, data: &[u8]) -> (r: Option<()>)
    ensures
        r is Some <==> cdef_ok(data@),
        r is Some ==> (final(boxes).channel_definition matches Some(c) && c.channel_definitions@.len() == u16_at(data@, 0)
            && forall|i: int| 0 <= i < u16_at(data@, 0) ==> entry_spec(data@, i) == Some(
                #[trigger] c.channel_definitions@[entry_index(data@, i)],
            )),
        r is None ==> final(boxes).channel_definition == old(boxes).channel_definition,
        final(boxes).color_specification == old(boxes).color_specification,
        final(boxes).palette == old(boxes).palette,
        final(boxes).component_mapping == old(boxes).component_mapping,
{
    let mut reader = Reader::new(data);
    let count = match reader.read_u16() {
        Some(v) => v as usize,
        None => return None,
    };
    if count == 0 {
        return None;
    }
    let ghost b = data@;
    proof {
        assert(reader.bytes().subrange(0, 2) == b.subrange(0, 2));
    }

    // Each definition goes to the slot of its channel index; a duplicate or
    // out-of-range index makes the box invalid.
    let mut slots: Vec<Option<ChannelDefinition>> = Vec::new();
    let mut k: usize = 0;
    while k < count
        invariant
            k <= count,
            slots@.len() == k,
            forall|j: int| 0 <= j < k ==> (#[trigger] slots@[j]) is None,
        decreases count - k,
    {
        slots.push(None);
        k = k + 1;
    }

    let mut i: usize = 0;
    while i < count
        invariant
            reader.wf(),
            reader.bytes() == b,
            b == data@,
            count == u16_at(b, 0),
            count > 0,
            i <= count,
            reader.pos() == 2 + 6 * i,
            2 + 6 * i <= b.len(),
            slots@.len() == count,
            forall|j: int| 0 <= j < i ==> (#[trigger] entry_spec(b, j)) is Some,
            forall|j: int| 0 <= j < i ==> #[trigger] entry_index(b, j) < count,
            forall|j: int, l: int| 0 <= j < l < i ==> #[trigger] entry_index(b, j) != #[trigger] entry_index(b, l),
            forall|j: int| 0 <= j < i ==> entry_spec(b, j) == #[trigger] slots@[entry_index(b, j)],
            forall|s: int| 0 <= s < count ==> ((#[trigger] slots@[s]) is Some <==> index_used(b, i as int, s)),
        decreases count - i,
    {
        let channel_index = match reader.read_u16() {
            Some(v) => v,
            None => return None,
        };
        let channel_type = match reader.read_u16() {
            Some(v) => v,
            None => return None,
        };
        let association = match reader.read_u16() {
            Some(v) => v,
            None => return None,
        };
        proof {
            assert(b.subrange(2 + 6 * i, 2 + 6 * i + 2) == b.subrange(2 + 6 * i, 4 + 6 * i));
        }
        proof {
            assert(channel_index == u16_at(b, 2 + 6 * i));
            assert(channel_type == u16_at(b, 4 + 6 * i));
            assert(association == u16_at(b, 6 + 6 * i));
        }
        let channel_type = match ChannelType::from_raw(channel_type) {
            Some(t) => t,
            None => {
                proof {
                    assert(entry_spec(b, i as int) is None);
                }
                return None;
            },
        };
        let association = match ChannelAssociation::from_raw(association) {
            Some(a) => a,
            None => {
                proof {
                    assert(entry_spec(b, i as int) is None);
                }
                return None;
            },
        };
        let def = ChannelDefinition { channel_index, channel_type, association };
        let idx = channel_index as usize;
        if idx >= count {
            return None;
        }
        if slots[idx].is_some() {
            return None;
        }
        slots.set(idx, Some(def));
        proof {
            assert forall|s: int| 0 <= s < count implies ((#[trigger] slots@[s]) is Some <==> index_used(b, i + 1, s)) by {
                if s == idx {
                    assert(entry_index(b, i as int) == s);
                } else {
                    if index_used(b, i + 1, s) {
                        let j = choose|j: int| 0 <= j < i + 1 && #[trigger] entry_index(b, j) == s;
                        assert(j < i);
                    }
                }
            }
        }
        i = i + 1;
    }

    // Ensure channel indices increases in steps of 1, starting from 0.
    let mut definitions: Vec<ChannelDefinition> = Vec::new();
    let mut s: usize = 0;
    while s < count
        invariant
            s <= count,
            b == data@,
            count == u16_at(b, 0),
            count > 0,
            2 + 6 * count <= b.len(),
            slots@.len() == count,
            definitions@.len() == s,
            forall|t: int| 0 <= t < s ==> slots@[t] == Some(#[trigger] definitions@[t]),
            forall|t: int| 0 <= t < s ==> #[trigger] index_used(b, count as int, t),
            forall|j: int| 0 <= j < count ==> (#[trigger] entry_spec(b, j)) is Some,
            forall|j: int| 0 <= j < count ==> #[trigger] entry_index(b, j) < count,
            forall|j: int, l: int| 0 <= j < l < count ==> #[trigger] entry_index(b, j) != #[trigger] entry_index(b, l),
            forall|j: int| 0 <= j < count ==> entry_spec(b, j) == #[trigger] slots@[entry_index(b, j)],
            forall|t: int| 0 <= t < count ==> ((#[trigger] slots@[t]) is Some <==> index_used(b, count as int, t)),
        decreases count - s,
    {
        match slots[s] {
            Some(d) => definitions.push(d),
            None => {
                proof {
                    assert(!index_used(b, count as int, s as int));
                }
                return None;
            },
        }
        s = s + 1;
    }
    proof {
        assert forall|j: int| 0 <= j < count implies entry_spec(b, j) == Some(
            #[trigger] definitions@[entry_index(b, j)],
        ) by {
            assert(slots@[entry_index(b, j)] == Some(definitions@[entry_index(b, j)]));
        }
    }

    boxes.channel_definition = Some(ChannelDefinitionBox { channel_definitions: definitions });
    Some(())
}

/// The key by which the channels are ordered: the colour that a channel
/// belongs to, the channels of the whole image last.
pub open spec fn association_key(a: ChannelAssociation) -> int {
    match a {
        ChannelAssociation::WholeImage => u16::MAX as int,
        ChannelAssociation::Colour(c) => c as int,
    }
}

/// Channel `i` comes before channel `j`: by the key of its association,
/// and by position among equal keys.
pub open spec fn channel_before(defs: Seq<ChannelDefinition>, i: int, j: int) -> bool {
    association_key(defs[i].association) < association_key(defs[j].association) || (association_key(
        defs[i].association,
    ) == association_key(defs[j].association) && i < j)
}

impl ChannelDefinitionBox {
    /// The order in which the components are arranged: the first components,
    /// as many as there are definitions, sorted by the association of their
    /// definition, keeping the order of components with equal associations.
    pub fn component_order(&self, num_components: usize) -> (r: Vec<usize>)
        ensures
            r@.len() == (if num_components <= self.channel_definitions@.len() {
                num_components as int
            } else {
                self.channel_definitions@.len() as int
            }),
            forall|i: int| 0 <= i < r@.len() ==> #[trigger] r@[i] < r@.len(),
            r@.no_duplicates(),
            forall|i: int, j: int|
                0 <= i < j < r@.len() ==> channel_before(self.channel_definitions@, #[trigger] r@[i] as int, #[trigger] r@[j] as int),
    {
        let defs = &self.channel_definitions;
        let n = if num_components <= defs.len() { num_components } else { defs.len() };
        let mut order: Vec<usize> = Vec::new();
        let mut k: usize = 0;
        while k < n
            invariant
                n <= defs@.len(),
                k <= n,
                order@.len() == k,
                forall|i: int| 0 <= i < order@.len() ==> #[trigger] order@[i] < k,
                order@.no_duplicates(),
                forall|i: int, j: int|
                    0 <= i < j < order@.len() ==> channel_before(defs@, #[trigger] order@[i] as int, #[trigger] order@[j] as int),
            decreases n - k,
        {
            let key = match defs[k].association {
                ChannelAssociation::WholeImage => u16::MAX,
                ChannelAssociation::Colour(c) => c,
            };
            // The place after every channel whose key is not larger.
            let mut pos: usize = 0;
            while pos < order.len()
                invariant
                    n <= defs@.len(),
                    k < n,
                    pos <= order@.len(),
                    key as int == association_key(defs@[k as int].association),
                    forall|i: int| 0 <= i < order@.len() ==> #[trigger] order@[i] < k,
                    forall|i: int| 0 <= i < pos ==> association_key(defs@[#[trigger] order@[i] as int].association) <= key,
                ensures
                    pos < order@.len() ==> association_key(defs@[order@[pos as int] as int].association) > key,
                decreases order@.len() - pos,
            {
                let other = match defs[order[pos]].association {
                    ChannelAssociation::WholeImage => u16::MAX,
                    ChannelAssociation::Colour(c) => c,
                };
                if other > key {
                    break;
                }
                pos = pos + 1;
            }
            let ghost before = order@;
            proof {
                // Every channel from `pos` on has a larger key, as the order
                // is sorted.
                assert forall|i: int| pos <= i < before.len() implies association_key(defs@[#[trigger] before[i] as int].association) > key by {
                    if i > pos {
                        assert(channel_before(defs@, before[pos as int] as int, before[i] as int));
                    }
                }
            }
            order.insert(pos, k);
            proof {
                let after = order@;
                assert(after =~= before.insert(pos as int, k));
                assert forall|i: int, j: int| 0 <= i < j < after.len() implies channel_before(defs@, #[trigger] after[i] as int, #[trigger] after[j] as int) by {
                    if j < pos {
                        assert(after[i] == before[i] && after[j] == before[j]);
                    } else if j == pos {
                        assert(after[i] == before[i]);
                    } else if i < pos {
                        assert(after[i] == before[i] && after[j] == before[j - 1]);
                    } else if i == pos {
                        assert(after[j] == before[j - 1]);
                    } else {
                        assert(after[i] == before[i - 1] && after[j] == before[j - 1]);
                    }
                }
                assert forall|i: int, j: int| 0 <= i < after.len() && 0 <= j < after.len() && i != j implies after[i] != after[j] by {
                    if i != pos as int && j != pos as int {
                        let bi = if i < pos { i } else { i - 1 };
                        let bj = if j < pos { j } else { j - 1 };
                        assert(after[i] == before[bi] && after[j] == before[bj]);
                    } else if i == pos as int {
                        let bj = if j < pos { j } else { j - 1 };
                        assert(after[j] == before[bj]);
                    } else {
                        let bi = if i < pos { i } else { i - 1 };
                        assert(after[i] == before[bi]);
                    }
                }
                assert forall|i: int| 0 <= i < after.len() implies #[trigger] after[i] < k + 1 by {
                    if i != pos as int {
                        let bi = if i < pos { i } else { i - 1 };
                        assert(after[i] == before[bi]);
                    }
                }
            }
            k = k + 1;
        }
        order
    }
}

} // verus!
