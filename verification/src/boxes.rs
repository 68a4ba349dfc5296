//! Reading the boxes of a JP2 file (I.4).
use crate::byte_reader::Reader;
use crate::reader::be_value;
use vstd::prelude::*;

verus! {

/// JP2 signature box - 'jP\040\040'.
pub const JP2_SIGNATURE: u32 = 0x6A502020;
/// File Type box - 'ftyp'.
pub const FILE_TYPE: u32 = 0x66747970;
/// JP2 Header box - 'jp2h'.
pub const JP2_HEADER: u32 = 0x6A703268;
/// Image Header box - 'ihdr'.
pub const IMAGE_HEADER: u32 = 0x69686472;
/// Bits Per Component box - 'bpcc'.
pub const BITS_PER_COMPONENT: u32 = 0x62706363;
/// Colour Specification box - 'colr'.
pub const COLOUR_SPECIFICATION: u32 = 0x636F6C72;
/// Palette box - 'pclr'.
pub const PALETTE: u32 = 0x70636C72;
/// Component Mapping box - 'cmap'.
pub const COMPONENT_MAPPING: u32 = 0x636D6170;
/// Channel Definition box - 'cdef'.
pub const CHANNEL_DEFINITION: u32 = 0x63646566;
/// Resolution box - 'res\x20'.
pub const RESOLUTION: u32 = 0x72657320;
/// Capture Resolution box - 'resc'.
pub const CAPTURE_RESOLUTION: u32 = 0x72657363;
/// Default Display Resolution box - 'resd'.
pub const DISPLAY_RESOLUTION: u32 = 0x72657364;
/// Contiguous Codestream box - 'jp2c'.
pub const CONTIGUOUS_CODESTREAM: u32 = 0x6A703263;
/// Intellectual Property box - 'jp2i'.
pub const INTELLECTUAL_PROPERTY: u32 = 0x6A703269;
/// XML box - 'xml\x20'.
pub const XML: u32 = 0x786D6C20;
/// UUID box - 'uuid'.
pub const UUID: u32 = 0x75756964;
/// UUID Info box - 'uinf'.
pub const UUID_INFO: u32 = 0x75696E66;
/// UUID List box - 'ulst'.
pub const UUID_LIST: u32 = 0x756C7374;
/// URL box - 'url\x20'.
pub const URL: u32 = 0x75726C20;

/// A box: its type and its contents.
pub struct Jp2Box<'a> {
    pub data: &'a [u8],
    pub box_type: u32,
}

/// The text that `String::from_utf8_lossy` makes of `bytes`.
pub uninterp spec fn utf8_lossy(bytes: Seq<u8>) -> Seq<char>;

/// Calls `String::from_utf8_lossy` and takes ownership of its result. The
/// contract names the result and states what the documentation of the
/// function says of input that is valid UTF-8, here narrowed to ASCII:
/// the text holds the same characters.
#[verifier::external_body]
fn string_from_utf8_lossy(bytes: &[u8]) -> (r: String)
    ensures
        r@ == utf8_lossy(bytes@),
        (forall|i: int| 0 <= i < bytes@.len() ==> #[trigger] bytes@[i] < 0x80) ==> r@ == Seq::new(
            bytes@.len(),
            |i: int| bytes@[i] as char,
        ),
{
    String::from_utf8_lossy(bytes).into_owned()
}

/// The four bytes of a box tag, most significant first.
pub open spec fn tag_bytes(tag: u32) -> Seq<u8> {
    seq![(tag >> 24u32) as u8, (tag >> 16u32) as u8, (tag >> 8u32) as u8, tag as u8]
}

/// Converts a box tag to its string representation.
///
/// Box tags are stored as 4-byte ASCII codes in big-endian format.
/// For example, 0x66747970 represents "ftyp".
pub fn tag_to_string(tag: u32) -> (r: String)
    ensures
        r@ == utf8_lossy(tag_bytes(tag)),
        (forall|i: int| 0 <= i < 4 ==> #[trigger] tag_bytes(tag)[i] < 0x80) ==> r@ == Seq::new(
            4,
            |i: int| tag_bytes(tag)[i] as char,
        ),
{
    let b0 = ((tag >> 24) & 0xFF) as u8;
    let b1 = ((tag >> 16) & 0xFF) as u8;
    let b2 = ((tag >> 8) & 0xFF) as u8;
    let b3 = (tag & 0xFF) as u8;
    proof {
        assert(b0 == (tag >> 24u32) as u8 && b1 == (tag >> 16u32) as u8 && b2 == (tag >> 8u32) as u8 && b3
            == tag as u8) by (bit_vector)
            requires
                b0 == ((tag >> 24u32) & 0xFFu32) as u8,
                b1 == ((tag >> 16u32) & 0xFFu32) as u8,
                b2 == ((tag >> 8u32) & 0xFFu32) as u8,
                b3 == (tag & 0xFFu32) as u8,
        ;
    }
    let bytes: [u8; 4] = [b0, b1, b2, b3];
    let r = string_from_utf8_lossy(&bytes);
    proof {
        assert(bytes@ =~= tag_bytes(tag));
    }
    r
}

/// Where the box at byte offset `p` lies: its type and the start and end
/// of its contents, or `None` when it cannot be read.
pub open spec fn box_spec(b: Seq<u8>, p: int) -> Option<(u32, int, int)> {
    if p + 8 > b.len() {
        None
    } else {
        let l = be_value(b.subrange(p, p + 4)) as int;
        let t = be_value(b.subrange(p + 4, p + 8)) as u32;
        if l == 0 {
            // The box runs to the end of the data.
            Some((t, p + 8, b.len() as int))
        } else if l == 1 {
            // The length is given by the 8 bytes after the type.
            if p + 16 > b.len() {
                None
            } else {
                let xl = be_value(b.subrange(p + 8, p + 16)) as int;
                if xl < 16 || p + xl > b.len() {
                    None
                } else {
                    Some((t, p + 16, p + xl))
                }
            }
        } else if l < 8 || p + l > b.len() {
            None
        } else {
            Some((t, p + 8, p + l))
        }
    }
}

/// Read the box at the current position.
pub fn read_box<'a>(reader: &mut Reader<'a>) -> (r: Option<Jp2Box<'a>>)
    requires
        old(reader).wf(),
    ensures
        final(reader).wf(),
        final(reader).bytes() == old(reader).bytes(),
        match box_spec(old(reader).bytes(), old(reader).pos()) {
            Some((t, start, end)) => r matches Some(bx) && bx.box_type == t && bx.data@ == old(
                reader,
            ).bytes().subrange(start, end) && final(reader).pos() == end,
            None => r is None,
        },
{
    let ghost b = reader.bytes();
    let ghost p = reader.pos();
    let l_box = match reader.read_u32() {
        Some(v) => v,
        None => return None,
    };
    let t_box = match reader.read_u32() {
        Some(v) => v,
        None => return None,
    };

    let data = if l_box == 0 {
        // If the value of this field is 0, then the length of the box
        // was not known when the LBox field was written. In this case, this box contains
        // all bytes up to the end of the file.
        let data = match reader.tail() {
            Some(d) => d,
            None => return None,
        };
        reader.jump_to_end();
        data
    } else if l_box == 1 {
        // If the value of this field is 1, then the XLBox field shall exist and the value of
        // that field shall be the actual length of the box.
        // The value includes all of the fields of the box, including the LBox, TBox and XLBox
        // fields.
        let xl_box = match reader.read_u64() {
            Some(v) => match v.checked_sub(16) {
                Some(l) => l,
                None => return None,
            },
            None => return None,
        };
        if xl_box > usize::MAX as u64 {
            return None;
        }
        match reader.read_bytes(xl_box as usize) {
            Some(d) => d,
            None => return None,
        }
    } else {
        // This field specifies the length of the box, stored as a 4-byte big-endian unsigned integer.
        // This value includes all of the fields of the box, including the length and type.
        let length = match l_box.checked_sub(8) {
            Some(l) => l,
            None => return None,
        };
        match reader.read_bytes(length as usize) {
            Some(d) => d,
            None => return None,
        }
    };

    Some(Jp2Box { data, box_type: t_box })
}

} // verus!
