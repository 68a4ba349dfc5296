//! Combined byte and bit reader utilities.
//!
//! The reader keeps a position measured in bits. Byte-oriented operations
//! work on the byte that contains the current bit position.
use vstd::prelude::*;

verus! {

/// The bit at bit position `pos` (most significant bit of each byte first).
pub open spec fn bit_at(data: Seq<u8>, pos: int) -> u32 {
    (((data[pos / 8] as u32) >> ((7 - pos % 8) as u32)) & 1u32) as u32
}

/// Whether the bit at `pos` is the last bit of a 0xFF byte, in which case a
/// stuffed zero bit follows it (B.10.1).
pub open spec fn needs_stuff_bit_at(data: Seq<u8>, pos: int) -> bool {
    pos % 8 == 7 && 0 <= pos / 8 < data.len() && data[pos / 8] == 0xff
}

/// Reading `n` bits with bit stuffing, starting at bit position `pos` with the
/// already accumulated value `acc`. Returns the value (or `None` on failure)
/// together with the bit position the reader ends up at.
pub open spec fn stuffed_bits(data: Seq<u8>, pos: int, n: nat, acc: u32) -> (Option<u32>, int)
    decreases n,
{
    if n == 0 {
        (Some(acc), pos)
    } else if pos / 8 >= data.len() {
        (None, pos)
    } else {
        let needs = needs_stuff_bit_at(data, pos);
        let acc2 = ((acc << 1u32) | bit_at(data, pos)) as u32;
        let p = pos + 1;
        if needs {
            if p / 8 >= data.len() {
                (None, p)
            } else if bit_at(data, p) != 0 {
                (None, p + 1)
            } else {
                stuffed_bits(data, p + 1, (n - 1) as nat, acc2)
            }
        } else {
            stuffed_bits(data, p, (n - 1) as nat, acc2)
        }
    }
}

/// Big-endian value of a byte sequence.
pub open spec fn be_value(bytes: Seq<u8>) -> nat
    decreases bytes.len(),
{
    if bytes.len() == 0 {
        0
    } else {
        be_value(bytes.drop_last()) * 256 + bytes.last() as nat
    }
}

/// A reader over a byte slice that can read both whole bytes and single
/// bits.
#[derive(Clone, Copy)]
pub struct BitReader<'a> {
    data: &'a [u8],
    cur_pos: usize,
}

impl<'a> BitReader<'a> {
    /// The bytes the reader reads from.
    pub closed spec fn bytes(&self) -> Seq<u8> {
        self.data@
    }

    /// The current position, in bits.
    pub closed spec fn pos(&self) -> int {
        self.cur_pos as int
    }

    /// The current byte position.
    pub open spec fn spec_byte_pos(&self) -> int {
        self.pos() / 8
    }

    /// The current bit position inside the current byte.
    pub open spec fn spec_bit_pos(&self) -> int {
        self.pos() % 8
    }

    /// The reader never moves past the end of its data, and the end of the
    /// data, counted in bits, fits in a `usize`.
    pub open spec fn wf(&self) -> bool {
        &&& 0 <= self.pos() <= self.bytes().len() * 8
        &&& self.bytes().len() * 8 <= usize::MAX
    }

    /// The reader over the same data, moved to bit position `pos`.
    pub open spec fn moved_to(&self, other: &Self, pos: int) -> bool {
        other.bytes() == self.bytes() && other.pos() == pos
    }

    pub fn new(data: &'a [u8]) -> (r: Self)
        requires
            data@.len() * 8 <= usize::MAX,
        ensures
            r.wf(),
            r.bytes() == data@,
            r.pos() == 0,
    {
        Self { data, cur_pos: 0 }
    }

    /// Move to the next byte boundary, unless already at one.
    pub fn align(&mut self)
        requires
            old(self).wf(),
        ensures
            final(self).wf(),
            old(self).moved_to(
                &*final(self),
                if old(self).spec_bit_pos() == 0 {
                    old(self).pos()
                } else {
                    old(self).pos() + 8 - old(self).spec_bit_pos()
                },
            ),
    {
        let bit_pos = self.bit_pos();

        if bit_pos % 8 != 0 {
            proof {
                let p = self.cur_pos as int;
                let n = self.data@.len() as int;
                assert(p + 8 - p % 8 <= n * 8) by (nonlinear_arith)
                    requires 0 <= p <= n * 8, p % 8 != 0;
            }
            self.cur_pos = self.cur_pos + (8 - bit_pos);
        }
    }

    pub fn at_end(&self) -> (r: bool)
        requires
            self.wf(),
        ensures
            r == (self.spec_byte_pos() >= self.bytes().len()),
    {
        self.byte_pos() >= self.data.len()
    }

    pub fn jump_to_end(&mut self)
        requires
            old(self).wf(),
        ensures
            final(self).wf(),
            old(self).moved_to(&*final(self), (old(self).bytes().len() * 8) as int),
    {
        self.cur_pos = self.data.len() * 8;
    }

    /// The bytes from the current byte position to the end.
    pub fn tail(&self) -> (r: Option<&'a [u8]>)
        requires
            self.wf(),
        ensures
            r matches Some(t) && t@ == self.bytes().subrange(self.spec_byte_pos(), self.bytes().len() as int),
    {
        let start = self.byte_pos();
        Some(vstd::slice::slice_subrange(self.data, start, self.data.len()))
    }

    pub fn offset(&self) -> (r: usize)
        requires
            self.wf(),
        ensures
            r == self.spec_byte_pos(),
    {
        self.byte_pos()
    }

    /// Read `len` bytes starting at the current byte position.
    pub fn read_bytes(&mut self, len: usize) -> (r: Option<&'a [u8]>)
        requires
            old(self).wf(),
            old(self).spec_bit_pos() == 0,
        ensures
            final(self).wf(),
            final(self).spec_bit_pos() == 0,
            old(self).spec_byte_pos() + len <= old(self).bytes().len() ==> {
                &&& r matches Some(b) && b@ == old(self).bytes().subrange(
                    old(self).spec_byte_pos(),
                    old(self).spec_byte_pos() + len,
                )
                &&& old(self).moved_to(&*final(self), old(self).pos() + len * 8)
            },
            old(self).spec_byte_pos() + len > old(self).bytes().len() ==> r is None && *final(self)
                == *old(self),
    {
        let bytes = match self.peek_bytes(len) {
            Some(b) => b,
            None => return None,
        };
        self.cur_pos = self.cur_pos + len * 8;

        Some(bytes)
    }

    pub fn read_byte(&mut self) -> (r: Option<u8>)
        requires
            old(self).wf(),
            old(self).spec_bit_pos() == 0,
        ensures
            final(self).wf(),
            final(self).spec_bit_pos() == 0,
            old(self).spec_byte_pos() < old(self).bytes().len() ==> {
                &&& r == Some(old(self).bytes()[old(self).spec_byte_pos()])
                &&& old(self).moved_to(&*final(self), old(self).pos() + 8)
            },
            old(self).spec_byte_pos() >= old(self).bytes().len() ==> r is None && *final(self)
                == *old(self),
    {
        let byte = match self.peek_byte() {
            Some(b) => b,
            None => return None,
        };
        self.cur_pos = self.cur_pos + 8;

        Some(byte)
    }

    pub fn skip_bytes(&mut self, len: usize) -> (r: Option<()>)
        requires
            old(self).wf(),
            old(self).spec_bit_pos() == 0,
        ensures
            final(self).wf(),
            final(self).spec_bit_pos() == 0,
            old(self).spec_byte_pos() + len <= old(self).bytes().len() ==> r is Some && old(
                self,
            ).moved_to(&*final(self), old(self).pos() + len * 8),
            old(self).spec_byte_pos() + len > old(self).bytes().len() ==> r is None && *final(self)
                == *old(self),
    {
        match self.read_bytes(len) {
            Some(_) => Some(()),
            None => None,
        }
    }

    pub fn peek_bytes(&self, len: usize) -> (r: Option<&'a [u8]>)
        requires
            self.wf(),
        ensures
            self.spec_byte_pos() + len <= self.bytes().len() ==> (r matches Some(b) && b@
                == self.bytes().subrange(self.spec_byte_pos(), self.spec_byte_pos() + len)),
            self.spec_byte_pos() + len > self.bytes().len() ==> r is None,
    {
        let start = self.byte_pos();
        let end = match start.checked_add(len) {
            Some(e) => e,
            None => return None,
        };
        if end <= self.data.len() {
            Some(vstd::slice::slice_subrange(self.data, start, end))
        } else {
            None
        }
    }

    pub fn peek_byte(&self) -> (r: Option<u8>)
        requires
            self.wf(),
        ensures
            self.spec_byte_pos() < self.bytes().len() ==> r == Some(
                self.bytes()[self.spec_byte_pos()],
            ),
            self.spec_byte_pos() >= self.bytes().len() ==> r is None,
    {
        let pos = self.byte_pos();
        if pos < self.data.len() {
            Some(self.data[pos])
        } else {
            None
        }
    }

    /// Read a big-endian `u16`.
    pub fn read_u16(&mut self) -> (r: Option<u16>)
        requires
            old(self).wf(),
            old(self).spec_bit_pos() == 0,
        ensures
            final(self).wf(),
            final(self).spec_bit_pos() == 0,
            old(self).spec_byte_pos() + 2 <= old(self).bytes().len() ==> {
                &&& r matches Some(v) && v == be_value(
                    old(self).bytes().subrange(
                        old(self).spec_byte_pos(),
                        old(self).spec_byte_pos() + 2,
                    ),
                )
                &&& old(self).moved_to(&*final(self), old(self).pos() + 16)
            },
            old(self).spec_byte_pos() + 2 > old(self).bytes().len() ==> r is None && *final(self)
                == *old(self),
    {
        let bytes = match self.read_bytes(2) {
            Some(b) => b,
            None => return None,
        };
        proof {
            reveal_with_fuel(be_value, 3);
        }
        Some((bytes[0] as u16) * 256 + (bytes[1] as u16))
    }

    /// Read a big-endian `u32`.
    pub fn read_u32(&mut self) -> (r: Option<u32>)
        requires
            old(self).wf(),
            old(self).spec_bit_pos() == 0,
        ensures
            final(self).wf(),
            final(self).spec_bit_pos() == 0,
            old(self).spec_byte_pos() + 4 <= old(self).bytes().len() ==> {
                &&& r matches Some(v) && v == be_value(
                    old(self).bytes().subrange(
                        old(self).spec_byte_pos(),
                        old(self).spec_byte_pos() + 4,
                    ),
                )
                &&& old(self).moved_to(&*final(self), old(self).pos() + 32)
            },
            old(self).spec_byte_pos() + 4 > old(self).bytes().len() ==> r is None && *final(self)
                == *old(self),
    {
        let bytes = match self.read_bytes(4) {
            Some(b) => b,
            None => return None,
        };
        let v = be_bytes_u64(bytes);
        proof {
            lemma_be_value_bound(bytes@);
            reveal_with_fuel(pow256, 5);
        }
        Some(v as u32)
    }

    /// Read a big-endian `u64`.
    pub fn read_u64(&mut self) -> (r: Option<u64>)
        requires
            old(self).wf(),
            old(self).spec_bit_pos() == 0,
        ensures
            final(self).wf(),
            final(self).spec_bit_pos() == 0,
            old(self).spec_byte_pos() + 8 <= old(self).bytes().len() ==> {
                &&& r matches Some(v) && v == be_value(
                    old(self).bytes().subrange(
                        old(self).spec_byte_pos(),
                        old(self).spec_byte_pos() + 8,
                    ),
                )
                &&& old(self).moved_to(&*final(self), old(self).pos() + 64)
            },
            old(self).spec_byte_pos() + 8 > old(self).bytes().len() ==> r is None && *final(self)
                == *old(self),
    {
        let bytes = match self.read_bytes(8) {
            Some(b) => b,
            None => return None,
        };
        Some(be_bytes_u64(bytes))
    }

    /// Read a single bit.
    pub fn read_bit(&mut self) -> (r: Option<u32>)
        requires
            old(self).wf(),
        ensures
            final(self).wf(),
            old(self).spec_byte_pos() < old(self).bytes().len() ==> {
                &&& r == Some(bit_at(old(self).bytes(), old(self).pos()))
                &&& old(self).moved_to(&*final(self), old(self).pos() + 1)
            },
            old(self).spec_byte_pos() >= old(self).bytes().len() ==> r is None && *final(self)
                == *old(self),
    {
        let byte_pos = self.byte_pos();
        if byte_pos >= self.data.len() {
            return None;
        }
        let byte = self.data[byte_pos] as u32;
        let shift = (7 - self.bit_pos()) as u32;
        self.cur_pos = self.cur_pos + 1;
        Some((byte >> shift) & 1)
    }

    pub fn byte_pos(&self) -> (r: usize)
        ensures
            r == self.spec_byte_pos(),
    {
        self.cur_pos / 8
    }

    pub fn bit_pos(&self) -> (r: usize)
        ensures
            r == self.spec_bit_pos(),
    {
        self.cur_pos % 8
    }

    /// Read `bit_size` bits (most significant first), skipping the stuffed
    /// zero bit that follows every 0xFF byte.
    pub fn read_bits_with_stuffing(&mut self, bit_size: u8) -> (r: Option<u32>)
        requires
            old(self).wf(),
        ensures
            final(self).wf(),
            final(self).bytes() == old(self).bytes(),
            (r, final(self).pos()) == stuffed_bits(
                old(self).bytes(),
                old(self).pos(),
                bit_size as nat,
                0,
            ),
    {
        let mut bit: u32 = 0;
        let mut i: u8 = 0;

        while i < bit_size
            invariant
                self.wf(),
                self.bytes() == old(self).bytes(),
                i <= bit_size,
                stuffed_bits(old(self).bytes(), old(self).pos(), bit_size as nat, 0)
                    == stuffed_bits(self.bytes(), self.pos(), (bit_size - i) as nat, bit),
            decreases bit_size - i,
        {
            let needs_stuff_bit = self.needs_to_read_stuff_bit();

            let b = match self.read_bit() {
                Some(b) => b,
                None => return None,
            };
            bit = (bit << 1) | b;

            if needs_stuff_bit {
                match self.read_stuff_bit() {
                    Some(_) => {},
                    None => return None,
                }
            }
            i = i + 1;
        }

        Some(bit)
    }

    /// Read one bit, skipping a stuffed bit after a 0xFF byte.
    pub fn read_stuffed_bit(&mut self) -> (r: Option<u32>)
        requires
            old(self).wf(),
        ensures
            final(self).wf(),
            final(self).bytes() == old(self).bytes(),
            (r, final(self).pos()) == stuffed_bits(old(self).bytes(), old(self).pos(), 1, 0),
            r matches Some(v) ==> v <= 1,
    {
        let r = self.read_bits_with_stuffing(1);
        proof {
            let b = old(self).bytes();
            let p = old(self).pos();
            if p / 8 < b.len() {
                let x = bit_at(b, p);
                let y = (b[p / 8] as u32) >> ((7 - p % 8) as u32);
                assert(y & 1u32 <= 1u32 && ((0u32 << 1u32) | (y & 1u32)) == y & 1u32) by (bit_vector);
                reveal_with_fuel(stuffed_bits, 3);
            }
        }
        r
    }

    /// Whether the current bit is the last bit of a 0xFF byte.
    pub fn needs_to_read_stuff_bit(&mut self) -> (r: bool)
        requires
            old(self).wf(),
        ensures
            *final(self) == *old(self),
            r == needs_stuff_bit_at(old(self).bytes(), old(self).pos()),
    {
        // B.10.1: "If the value of the byte is 0xFF, the next byte includes an extra zero bit
        // stuffed into the MSB."
        self.bit_pos() == 7 && self.data[self.byte_pos()] == 0xff
    }

    /// Read a stuffed bit, which must be zero.
    pub fn read_stuff_bit(&mut self) -> (r: Option<()>)
        requires
            old(self).wf(),
        ensures
            final(self).wf(),
            final(self).bytes() == old(self).bytes(),
            old(self).spec_byte_pos() >= old(self).bytes().len() ==> r is None && *final(self)
                == *old(self),
            old(self).spec_byte_pos() < old(self).bytes().len() ==> {
                &&& final(self).pos() == old(self).pos() + 1
                &&& (r is Some <==> bit_at(old(self).bytes(), old(self).pos()) == 0)
            },
    {
        let stuff_bit = match self.read_bit() {
            Some(b) => b,
            None => return None,
        };

        if stuff_bit != 0 {
            return None;
        }

        Some(())
    }

    /// Like `read_bits_with_stuffing`, but without moving the reader.
    pub fn peak_bits_with_stuffing(&mut self, bit_size: u8) -> (r: Option<u32>)
        requires
            old(self).wf(),
        ensures
            *final(self) == *old(self),
            r == stuffed_bits(old(self).bytes(), old(self).pos(), bit_size as nat, 0).0,
    {
        let mut copy = *self;
        copy.read_bits_with_stuffing(bit_size)
    }
}

/// Shifting a bit in below the accumulated bits doubles them and adds it.
proof fn lemma_push_bit(acc: u32, y: u32)
    by (bit_vector)
    requires
        acc < 0x8000_0000,
    ensures
        ((acc << 1u32) | (y & 1u32)) == 2 * acc + (y & 1u32),
        y & 1u32 <= 1,
{
}

/// Reading `n` more bits onto a value below `2^k` gives a value below
/// `2^(k + n)`.
pub proof fn lemma_stuffed_bits_bound(data: Seq<u8>, pos: int, n: nat, acc: u32, k: nat)
    requires
        k + n <= 31,
        acc < vstd::arithmetic::power2::pow2(k),
    ensures
        stuffed_bits(data, pos, n, acc).0 matches Some(v) ==> v < vstd::arithmetic::power2::pow2(k + n),
    decreases n,
{
    if n > 0 && pos / 8 < data.len() {
        let y = (data[pos / 8] as u32) >> ((7 - pos % 8) as u32);
        vstd::arithmetic::power2::lemma_pow2_strictly_increases(k, 31);
        vstd::arithmetic::power2::lemma2_to64();
        lemma_push_bit(acc, y);
        vstd::arithmetic::power2::lemma_pow2_adds(k, 1);
        let acc2 = ((acc << 1u32) | bit_at(data, pos)) as u32;
        assert(acc2 < vstd::arithmetic::power2::pow2(k + 1));
        let p = pos + 1;
        if needs_stuff_bit_at(data, pos) {
            lemma_stuffed_bits_bound(data, p + 1, (n - 1) as nat, acc2, k + 1);
        } else {
            lemma_stuffed_bits_bound(data, p, (n - 1) as nat, acc2, k + 1);
        }
    }
}

/// Reading `m + n` bits is reading `m` bits and then `n` more onto them.
pub proof fn lemma_stuffed_bits_split(data: Seq<u8>, pos: int, m: nat, n: nat, acc: u32)
    ensures
        stuffed_bits(data, pos, m + n, acc) == (match stuffed_bits(data, pos, m, acc) {
            (Some(v), q) => stuffed_bits(data, q, n, v),
            (None, q) => (None::<u32>, q),
        }),
    decreases m,
{
    if m > 0 && pos / 8 < data.len() {
        let acc2 = ((acc << 1u32) | bit_at(data, pos)) as u32;
        let p = pos + 1;
        assert((m + n - 1) as nat == (m - 1) as nat + n);
        if needs_stuff_bit_at(data, pos) {
            if p / 8 < data.len() && bit_at(data, p) == 0 {
                lemma_stuffed_bits_split(data, p + 1, (m - 1) as nat, n, acc2);
            }
        } else {
            lemma_stuffed_bits_split(data, p, (m - 1) as nat, n, acc2);
        }
    }
}

/// The bits read onto a value `acc` below `2^k` follow its bits: the
/// value read lies between `acc * 2^n` and `(acc + 1) * 2^n`.
pub proof fn lemma_stuffed_bits_range(data: Seq<u8>, pos: int, n: nat, acc: u32, k: nat)
    requires
        k + n <= 31,
        acc < vstd::arithmetic::power2::pow2(k),
    ensures
        stuffed_bits(data, pos, n, acc).0 matches Some(v) ==> acc * vstd::arithmetic::power2::pow2(n) <= v < (acc + 1)
            * vstd::arithmetic::power2::pow2(n),
    decreases n,
{
    vstd::arithmetic::power2::lemma2_to64();
    if n > 0 && pos / 8 < data.len() {
        let y = (data[pos / 8] as u32) >> ((7 - pos % 8) as u32);
        vstd::arithmetic::power2::lemma_pow2_strictly_increases(k, 31);
        lemma_push_bit(acc, y);
        let acc2 = ((acc << 1u32) | bit_at(data, pos)) as u32;
        vstd::arithmetic::power2::lemma_pow2_adds(k, 1);
        assert(acc2 < vstd::arithmetic::power2::pow2(k + 1));
        assert(acc2 == 2 * acc + (y & 1u32));
        let p = pos + 1;
        let m = (n - 1) as nat;
        vstd::arithmetic::power2::lemma_pow2_adds(m, 1);
        let e = vstd::arithmetic::power2::pow2(m);
        assert(vstd::arithmetic::power2::pow2(n) == e * 2);
        assert(acc * (e * 2) <= acc2 * e && (acc2 + 1) * e <= (acc + 1) * (e * 2)) by (nonlinear_arith)
            requires
                2 * acc <= acc2 <= 2 * acc + 1,
                e >= 1,
        ;
        if needs_stuff_bit_at(data, pos) {
            lemma_stuffed_bits_range(data, p + 1, m, acc2, k + 1);
        } else {
            lemma_stuffed_bits_range(data, p, m, acc2, k + 1);
        }
    }
}

/// The big-endian value of at most eight bytes.
pub fn be_bytes_u64(bytes: &[u8]) -> (r: u64)
    requires
        bytes@.len() <= 8,
    ensures
        r == be_value(bytes@),
{
    let mut v: u64 = 0;
    let mut i: usize = 0;
    while i < bytes.len()
        invariant
            i <= bytes@.len() <= 8,
            v == be_value(bytes@.subrange(0, i as int)),
            v < pow256(i as nat),
        decreases bytes@.len() - i,
    {
        proof {
            assert(bytes@.subrange(0, i + 1).drop_last() =~= bytes@.subrange(0, i as int));
            lemma_pow256_bound(i as nat);
        }
        v = v * 256 + bytes[i] as u64;
        i = i + 1;
    }
    proof {
        assert(bytes@.subrange(0, i as int) =~= bytes@);
    }
    v
}

pub open spec fn pow256(n: nat) -> nat
    decreases n,
{
    if n == 0 {
        1
    } else {
        256 * pow256((n - 1) as nat)
    }
}

/// A big-endian value of `n` bytes is smaller than `256^n`.
pub proof fn lemma_be_value_bound(bytes: Seq<u8>)
    ensures
        be_value(bytes) < pow256(bytes.len()),
    decreases bytes.len(),
{
    if bytes.len() > 0 {
        lemma_be_value_bound(bytes.drop_last());
        assert(pow256(bytes.len()) == 256 * pow256((bytes.len() - 1) as nat));
    }
}

/// `256^2 == 0x10000`.
pub proof fn lemma_pow256_two()
    ensures
        pow256(2) == 0x10000,
{
    reveal_with_fuel(pow256, 3);
}

proof fn lemma_pow256_bound(n: nat)
    requires
        n < 8,
    ensures
        pow256(n + 1) <= 0x1_0000_0000_0000_0000,
        pow256(n + 1) == 256 * pow256(n),
{
    reveal_with_fuel(pow256, 9);
}

} // verus!
