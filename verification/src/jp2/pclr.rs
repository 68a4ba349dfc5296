//! The palette box (pclr), defined in I.5.3.4.
use crate::byte_reader::Reader;
use crate::j2c::codestream::u16_at;
use crate::jp2::ImageBoxes;
use crate::reader::be_value;
use vstd::prelude::*;

verus! {

/// The contents of a palette box.
pub struct PaletteBox {
    /// One row of column values per palette entry.
    pub entries: Vec<Vec<u64>>,
    pub columns: Vec<PaletteColumn>,
}

/// A column of the palette.
#[derive(Debug, Clone, Copy, PartialEq, Eq, Structural)]
pub struct PaletteColumn {
    pub bit_depth: u8,
}

impl PaletteBox {
    /// The value of column `column` of entry `entry`, if both exist.
    pub fn map(&self, entry: usize, column: usize) -> (r: Option<u64>)
        ensures
            r == (if entry < self.entries@.len() && column < self.entries@[entry as int]@.len() {
                Some(self.entries@[entry as int]@[column as int])
            } else {
                None
            }),
    {
        if entry < self.entries.len() {
            let row = &self.entries[entry];
            if column < row.len() {
                return Some(row[column]);
            }
        }
        None
    }
}

/// The bit depth of column `j` of the box in `b`.
pub open spec fn column_depth(b: Seq<u8>, j: int) -> int {
    (b[3 + j] & 0x7Fu8) + 1
}

/// The number of bytes a value of column `j` takes.
pub open spec fn column_bytes(b: Seq<u8>, j: int) -> int {
    (column_depth(b, j) + 7) / 8
}

/// The number of bytes that the values of the columns before `j` take.
pub open spec fn row_prefix(b: Seq<u8>, j: int) -> int
    decreases j,
{
    if j <= 0 {
        0
    } else {
        row_prefix(b, j - 1) + column_bytes(b, j - 1)
    }
}

/// The number of columns of the box in `b`.
pub open spec fn num_columns(b: Seq<u8>) -> int {
    b[2] as int
}

/// The number of bytes of one palette entry.
pub open spec fn row_len(b: Seq<u8>) -> int {
    row_prefix(b, num_columns(b))
}

/// The value of column `j` of entry `e`: the bytes read big-endian, kept to
/// 64 bits.
pub open spec fn palette_value(b: Seq<u8>, e: int, j: int) -> u64 {
    let start = 3 + num_columns(b) + e * row_len(b) + row_prefix(b, j);
    (be_value(b.subrange(start, start + column_bytes(b, j))) % 0x1_0000_0000_0000_0000) as u64
}

/// The box in `b` can be read: it has entries and columns, no column is
/// signed, and all values are present.
pub open spec fn pclr_ok(b: Seq<u8>) -> bool {
    &&& b.len() >= 3
    &&& u16_at(b, 0) > 0
    &&& num_columns(b) > 0
    &&& 3 + num_columns(b) <= b.len()
    &&& forall|j: int| 0 <= j < num_columns(b) ==> #[trigger] b[3 + j] & 0x80u8 == 0
    &&& 3 + num_columns(b) + u16_at(b, 0) * row_len(b) <= b.len()
}

proof fn lemma_row_prefix_mono(b: Seq<u8>, j: int, k: int)
    requires
        0 <= j <= k,
    ensures
        row_prefix(b, j) <= row_prefix(b, k),
        row_prefix(b, k) >= 0,
    decreases k,
{
    if k > 0 {
        if j < k {
            lemma_row_prefix_mono(b, j, k - 1);
        }
        lemma_row_prefix_mono(b, 0, k - 1);
    }
}

/// Read `n` bytes as a big-endian number, kept to 64 bits.
fn read_value(reader: &mut Reader<'_>, n: usize) -> (r: Option<u64>)
    requires
        old(reader).wf(),
    ensures
        final(reader).wf(),
        final(reader).bytes() == old(reader).bytes(),
        old(reader).has(n as int) ==> r == Some(
            (be_value(old(reader).next_bytes(n as int)) % 0x1_0000_0000_0000_0000) as u64,
        ) && final(reader).pos() == old(reader).pos() + n,
        !old(reader).has(n as int) ==> r is None,
{
    let raw_bytes = match reader.read_bytes(n) {
        Some(b) => b,
        None => return None,
    };
    let mut raw_value: u64 = 0;
    let mut i: usize = 0;
    while i < raw_bytes.len()
        invariant
            i <= raw_bytes@.len(),
            raw_value == be_value(raw_bytes@.subrange(0, i as int)) % 0x1_0000_0000_0000_0000,
        decreases raw_bytes@.len() - i,
    {
        let byte = raw_bytes[i];
        proof {
            let s = raw_bytes@.subrange(0, i + 1);
            assert(s.drop_last() =~= raw_bytes@.subrange(0, i as int));
            let v = be_value(raw_bytes@.subrange(0, i as int)) as int;
            let m: int = 0x1_0000_0000_0000_0000;
            assert(((raw_value << 8u64) | (byte as u64)) == ((raw_value * 256) % 0x1_0000_0000_0000_0000 + byte))
                by (bit_vector)
                requires byte < 256;
            assert((raw_value * 256) % 0x1_0000_0000_0000_0000 + byte < 0x1_0000_0000_0000_0000) by (bit_vector)
                requires byte < 256;
            vstd::arithmetic::div_mod::lemma_mul_mod_noop_left(v, 256, m);
            vstd::arithmetic::div_mod::lemma_add_mod_noop(v * 256, byte as int, m);
            vstd::arithmetic::div_mod::lemma_add_mod_noop((raw_value * 256) as int, byte as int, m);
            vstd::arithmetic::div_mod::lemma_small_mod(byte as nat, m as nat);
            vstd::arithmetic::div_mod::lemma_mod_twice((raw_value * 256) as int, m);
            vstd::arithmetic::div_mod::lemma_small_mod(((raw_value * 256) % m + byte) as nat, m as nat);
            assert(be_value(s) == be_value(s.drop_last()) * 256 + s.last());
        }
        raw_value = (raw_value << 8) | byte as u64;
        i = i + 1;
    }
    proof {
        assert(raw_bytes@.subrange(0, raw_bytes@.len() as int) =~= raw_bytes@);
    }
    Some(raw_value)
}

/// Read a palette box.
pub fn parse(boxes: &mut ImageBoxes, data: &[u8]) -> (r: Option<()>)
    ensures
        r is Some <==> pclr_ok(data@),
        r is Some ==> (final(boxes).palette matches Some(p) && {
            &&& p.columns@.len() == num_columns(data@)
            &&& forall|j: int| 0 <= j < num_columns(data@) ==> (#[trigger] p.columns@[j]).bit_depth == column_depth(data@, j)
            &&& p.entries@.len() == u16_at(data@, 0)
            &&& forall|e: int| 0 <= e < p.entries@.len() ==> (#[trigger] p.entries@[e])@.len() == num_columns(data@)
            &&& forall|e: int, j: int| 0 <= e < p.entries@.len() && 0 <= j < num_columns(data@) ==>
                (#[trigger] p.entries@[e]@[j]) == palette_value(data@, e, j)
        }),
        r is None ==> final(boxes).palette == old(boxes).palette,
        final(boxes).color_specification == old(boxes).color_specification,
        final(boxes).component_mapping == old(boxes).component_mapping,
        final(boxes).channel_definition == old(boxes).channel_definition,
{
    let ghost b = data@;
    let mut reader = Reader::new(data);
    let num_entries = match reader.read_u16() {
        Some(v) => v as usize,
        None => return None,
    };
    let num_components = match reader.read_byte() {
        Some(v) => v as usize,
        None => return None,
    };
    if num_entries == 0 || num_components == 0 {
        return None;
    }

    let mut columns: Vec<PaletteColumn> = Vec::new();
    let mut c: usize = 0;
    while c < num_components
        invariant
            reader.wf(),
            reader.bytes() == b,
            b == data@,
            b.len() >= 3,
            num_components == num_columns(b),
            c <= num_components,
            reader.pos() == 3 + c,
            columns@.len() == c,
            forall|j: int| 0 <= j < c ==> #[trigger] b[3 + j] & 0x80u8 == 0,
            forall|j: int| 0 <= j < c ==> (#[trigger] columns@[j]).bit_depth == column_depth(b, j),
        decreases num_components - c,
    {
        let descriptor = match reader.read_byte() {
            Some(v) => v,
            None => {
                proof {
                    assert(3 + num_columns(b) > b.len());
                }
                return None;
            },
        };
        proof {
            assert(descriptor == b[3 + c]);
        }
        assert(descriptor & 0x7F <= 0x7F) by (bit_vector);
        let bit_depth = (descriptor & 0x7F) + 1;
        let is_signed = (descriptor & 0x80) != 0;
        if is_signed {
            proof {
                assert(b[3 + c] & 0x80u8 != 0);
            }
            return None;
        }
        columns.push(PaletteColumn { bit_depth });
        c = c + 1;
    }

    let mut entries: Vec<Vec<u64>> = Vec::new();
    let mut e: usize = 0;
    while e < num_entries
        invariant
            reader.wf(),
            reader.bytes() == b,
            b == data@,
            b.len() >= 3,
            num_components == num_columns(b),
            num_entries == u16_at(b, 0),
            num_components > 0,
            columns@.len() == num_components,
            forall|j: int| 0 <= j < num_components ==> (#[trigger] columns@[j]).bit_depth == column_depth(b, j),
            forall|j: int| 0 <= j < num_components ==> #[trigger] b[3 + j] & 0x80u8 == 0,
            e <= num_entries,
            reader.pos() == 3 + num_components + e * row_len(b),
            entries@.len() == e,
            forall|x: int| 0 <= x < e ==> (#[trigger] entries@[x])@.len() == num_components,
            forall|x: int, j: int| 0 <= x < e && 0 <= j < num_components ==> (#[trigger] entries@[x]@[j]) == palette_value(b, x, j),
        decreases num_entries - e,
    {
        let mut row: Vec<u64> = Vec::new();
        let mut j: usize = 0;
        while j < num_components
            invariant
                reader.wf(),
                reader.bytes() == b,
                b == data@,
                b.len() >= 3,
                num_entries == u16_at(b, 0),
                num_components > 0,
                num_components == num_columns(b),
                columns@.len() == num_components,
                forall|x: int| 0 <= x < num_components ==> (#[trigger] columns@[x]).bit_depth == column_depth(b, x),
                j <= num_components,
                e < num_entries,
                reader.pos() == 3 + num_components + e * row_len(b) + row_prefix(b, j as int),
                row@.len() == j,
                forall|x: int| 0 <= x < j ==> (#[trigger] row@[x]) == palette_value(b, e as int, x),
            decreases num_components - j,
        {
            let bit_depth = columns[j].bit_depth as usize;
            let num_bytes = (bit_depth + 7) / 8;
            let num_bytes = if num_bytes >= 1 { num_bytes } else { 1 };
            let value = match read_value(&mut reader, num_bytes) {
                Some(v) => v,
                None => {
                    proof {
                        lemma_row_prefix_mono(b, j as int + 1, num_components as int);
                        assert(num_bytes == column_bytes(b, j as int));
                        assert(row_prefix(b, j + 1) == row_prefix(b, j as int) + column_bytes(b, j as int));
                        assert(e * row_len(b) + row_len(b) <= num_entries * row_len(b)) by (nonlinear_arith)
                            requires e < num_entries, row_len(b) >= 0;
                        assert(3 + num_columns(b) + u16_at(b, 0) * row_len(b) > b.len());
                    }
                    return None;
                },
            };
            row.push(value);
            j = j + 1;
        }
        proof {
            assert(e * row_len(b) + row_len(b) == (e + 1) * row_len(b)) by (nonlinear_arith);
        }
        entries.push(row);
        e = e + 1;
    }

    boxes.palette = Some(PaletteBox { entries, columns });
    Some(())
}

} // verus!
