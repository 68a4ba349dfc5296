//! The arithmetic decoder, described in Annex C.
//!
//! The arithmetic decoder keeps track of some state and continuously receives
//! context labels as input, each time yielding a new bit from the original data
//! as output.
//!
//! The specification below follows the procedures of Annex C literally
//! (bit-by-bit renormalization, branching exchange procedures); the
//! implementation batches the renormalization shifts and uses branchless
//! exchanges, and is proved to compute the same results.
use vstd::prelude::*;
use vstd::std_specs::bits::u32_leading_zeros;
use vstd::wrapping::u32_specs::{wrapping_add, wrapping_sub};

verus! {

/// QE values and associated data from Table C.2.
#[derive(Clone, Copy)]
pub struct QeData {
    pub qe: u32,
    pub nmps: u8,
    pub nlps: u8,
    pub switch: bool,
}

/// Table C.2, indexed by the context index.
pub open spec fn qe_table(i: u32) -> QeData {
    match i {
        0 => QeData { qe: 0x5601, nmps: 1, nlps: 1, switch: true },
        1 => QeData { qe: 0x3401, nmps: 2, nlps: 6, switch: false },
        2 => QeData { qe: 0x1801, nmps: 3, nlps: 9, switch: false },
        3 => QeData { qe: 0x0AC1, nmps: 4, nlps: 12, switch: false },
        4 => QeData { qe: 0x0521, nmps: 5, nlps: 29, switch: false },
        5 => QeData { qe: 0x0221, nmps: 38, nlps: 33, switch: false },
        6 => QeData { qe: 0x5601, nmps: 7, nlps: 6, switch: true },
        7 => QeData { qe: 0x5401, nmps: 8, nlps: 14, switch: false },
        8 => QeData { qe: 0x4801, nmps: 9, nlps: 14, switch: false },
        9 => QeData { qe: 0x3801, nmps: 10, nlps: 14, switch: false },
        10 => QeData { qe: 0x3001, nmps: 11, nlps: 17, switch: false },
        11 => QeData { qe: 0x2401, nmps: 12, nlps: 18, switch: false },
        12 => QeData { qe: 0x1C01, nmps: 13, nlps: 20, switch: false },
        13 => QeData { qe: 0x1601, nmps: 29, nlps: 21, switch: false },
        14 => QeData { qe: 0x5601, nmps: 15, nlps: 14, switch: true },
        15 => QeData { qe: 0x5401, nmps: 16, nlps: 14, switch: false },
        16 => QeData { qe: 0x5101, nmps: 17, nlps: 15, switch: false },
        17 => QeData { qe: 0x4801, nmps: 18, nlps: 16, switch: false },
        18 => QeData { qe: 0x3801, nmps: 19, nlps: 17, switch: false },
        19 => QeData { qe: 0x3401, nmps: 20, nlps: 18, switch: false },
        20 => QeData { qe: 0x3001, nmps: 21, nlps: 19, switch: false },
        21 => QeData { qe: 0x2801, nmps: 22, nlps: 19, switch: false },
        22 => QeData { qe: 0x2401, nmps: 23, nlps: 20, switch: false },
        23 => QeData { qe: 0x2201, nmps: 24, nlps: 21, switch: false },
        24 => QeData { qe: 0x1C01, nmps: 25, nlps: 22, switch: false },
        25 => QeData { qe: 0x1801, nmps: 26, nlps: 23, switch: false },
        26 => QeData { qe: 0x1601, nmps: 27, nlps: 24, switch: false },
        27 => QeData { qe: 0x1401, nmps: 28, nlps: 25, switch: false },
        28 => QeData { qe: 0x1201, nmps: 29, nlps: 26, switch: false },
        29 => QeData { qe: 0x1101, nmps: 30, nlps: 27, switch: false },
        30 => QeData { qe: 0x0AC1, nmps: 31, nlps: 28, switch: false },
        31 => QeData { qe: 0x09C1, nmps: 32, nlps: 29, switch: false },
        32 => QeData { qe: 0x08A1, nmps: 33, nlps: 30, switch: false },
        33 => QeData { qe: 0x0521, nmps: 34, nlps: 31, switch: false },
        34 => QeData { qe: 0x0441, nmps: 35, nlps: 32, switch: false },
        35 => QeData { qe: 0x02A1, nmps: 36, nlps: 33, switch: false },
        36 => QeData { qe: 0x0221, nmps: 37, nlps: 34, switch: false },
        37 => QeData { qe: 0x0141, nmps: 38, nlps: 35, switch: false },
        38 => QeData { qe: 0x0111, nmps: 39, nlps: 36, switch: false },
        39 => QeData { qe: 0x0085, nmps: 40, nlps: 37, switch: false },
        40 => QeData { qe: 0x0049, nmps: 41, nlps: 38, switch: false },
        41 => QeData { qe: 0x0025, nmps: 42, nlps: 39, switch: false },
        42 => QeData { qe: 0x0015, nmps: 43, nlps: 40, switch: false },
        43 => QeData { qe: 0x0009, nmps: 44, nlps: 41, switch: false },
        44 => QeData { qe: 0x0005, nmps: 45, nlps: 42, switch: false },
        45 => QeData { qe: 0x0001, nmps: 45, nlps: 43, switch: false },
        _ => QeData { qe: 0x5601, nmps: 46, nlps: 46, switch: false },
    }
}

/// The entry of Table C.2 for context index `i`.
fn qe_entry(i: u32) -> (r: QeData)
    ensures
        r == qe_table(i),
{
    match i {
        0 => QeData { qe: 0x5601, nmps: 1, nlps: 1, switch: true },
        1 => QeData { qe: 0x3401, nmps: 2, nlps: 6, switch: false },
        2 => QeData { qe: 0x1801, nmps: 3, nlps: 9, switch: false },
        3 => QeData { qe: 0x0AC1, nmps: 4, nlps: 12, switch: false },
        4 => QeData { qe: 0x0521, nmps: 5, nlps: 29, switch: false },
        5 => QeData { qe: 0x0221, nmps: 38, nlps: 33, switch: false },
        6 => QeData { qe: 0x5601, nmps: 7, nlps: 6, switch: true },
        7 => QeData { qe: 0x5401, nmps: 8, nlps: 14, switch: false },
        8 => QeData { qe: 0x4801, nmps: 9, nlps: 14, switch: false },
        9 => QeData { qe: 0x3801, nmps: 10, nlps: 14, switch: false },
        10 => QeData { qe: 0x3001, nmps: 11, nlps: 17, switch: false },
        11 => QeData { qe: 0x2401, nmps: 12, nlps: 18, switch: false },
        12 => QeData { qe: 0x1C01, nmps: 13, nlps: 20, switch: false },
        13 => QeData { qe: 0x1601, nmps: 29, nlps: 21, switch: false },
        14 => QeData { qe: 0x5601, nmps: 15, nlps: 14, switch: true },
        15 => QeData { qe: 0x5401, nmps: 16, nlps: 14, switch: false },
        16 => QeData { qe: 0x5101, nmps: 17, nlps: 15, switch: false },
        17 => QeData { qe: 0x4801, nmps: 18, nlps: 16, switch: false },
        18 => QeData { qe: 0x3801, nmps: 19, nlps: 17, switch: false },
        19 => QeData { qe: 0x3401, nmps: 20, nlps: 18, switch: false },
        20 => QeData { qe: 0x3001, nmps: 21, nlps: 19, switch: false },
        21 => QeData { qe: 0x2801, nmps: 22, nlps: 19, switch: false },
        22 => QeData { qe: 0x2401, nmps: 23, nlps: 20, switch: false },
        23 => QeData { qe: 0x2201, nmps: 24, nlps: 21, switch: false },
        24 => QeData { qe: 0x1C01, nmps: 25, nlps: 22, switch: false },
        25 => QeData { qe: 0x1801, nmps: 26, nlps: 23, switch: false },
        26 => QeData { qe: 0x1601, nmps: 27, nlps: 24, switch: false },
        27 => QeData { qe: 0x1401, nmps: 28, nlps: 25, switch: false },
        28 => QeData { qe: 0x1201, nmps: 29, nlps: 26, switch: false },
        29 => QeData { qe: 0x1101, nmps: 30, nlps: 27, switch: false },
        30 => QeData { qe: 0x0AC1, nmps: 31, nlps: 28, switch: false },
        31 => QeData { qe: 0x09C1, nmps: 32, nlps: 29, switch: false },
        32 => QeData { qe: 0x08A1, nmps: 33, nlps: 30, switch: false },
        33 => QeData { qe: 0x0521, nmps: 34, nlps: 31, switch: false },
        34 => QeData { qe: 0x0441, nmps: 35, nlps: 32, switch: false },
        35 => QeData { qe: 0x02A1, nmps: 36, nlps: 33, switch: false },
        36 => QeData { qe: 0x0221, nmps: 37, nlps: 34, switch: false },
        37 => QeData { qe: 0x0141, nmps: 38, nlps: 35, switch: false },
        38 => QeData { qe: 0x0111, nmps: 39, nlps: 36, switch: false },
        39 => QeData { qe: 0x0085, nmps: 40, nlps: 37, switch: false },
        40 => QeData { qe: 0x0049, nmps: 41, nlps: 38, switch: false },
        41 => QeData { qe: 0x0025, nmps: 42, nlps: 39, switch: false },
        42 => QeData { qe: 0x0015, nmps: 43, nlps: 40, switch: false },
        43 => QeData { qe: 0x0009, nmps: 44, nlps: 41, switch: false },
        44 => QeData { qe: 0x0005, nmps: 45, nlps: 42, switch: false },
        45 => QeData { qe: 0x0001, nmps: 45, nlps: 43, switch: false },
        _ => QeData { qe: 0x5601, nmps: 46, nlps: 46, switch: false },
    }
}

/// Every entry of Table C.2 refers to valid indices and has a probability
/// estimate in `1..=0x5601`.
pub proof fn lemma_qe_table(i: u32)
    requires
        i < 47,
    ensures
        qe_table(i).nmps < 47,
        qe_table(i).nlps < 47,
        1 <= qe_table(i).qe <= 0x5601,
{
}

/// The state of the decoder registers (Table C.1).
pub struct MqState {
    /// The C-register.
    pub c: u32,
    /// The A-register.
    pub a: u32,
    /// The pointer to the current byte.
    pub bp: u32,
    /// The bit shift counter.
    pub ct: u32,
}

/// The byte at `i`; the input is extended with 0xFF bytes past its end.
pub open spec fn byte_at(data: Seq<u8>, i: int) -> u8 {
    if 0 <= i < data.len() {
        data[i]
    } else {
        0xFF
    }
}

/// The BYTEIN procedure (C.3.4, in the form of Annex G of T.88).
pub open spec fn bytein(data: Seq<u8>, s: MqState) -> MqState {
    if byte_at(data, s.bp as int) == 0xff {
        if byte_at(data, s.bp + 1) > 0x8f {
            MqState { ct: 8, ..s }
        } else {
            let bp = (s.bp + 1) as u32;
            MqState {
                bp,
                c: wrapping_sub(wrapping_add(s.c, 0xfe00), ((byte_at(data, bp as int) as u32) << 9u32)),
                ct: 7,
                a: s.a,
            }
        }
    } else {
        let bp = (s.bp + 1) as u32;
        MqState {
            bp,
            c: wrapping_sub(wrapping_add(s.c, 0xff00), ((byte_at(data, bp as int) as u32) << 8u32)),
            ct: 8,
            a: s.a,
        }
    }
}

/// One step of the RENORMD loop: read a byte if the counter is exhausted,
/// then shift A and C left by one bit.
pub open spec fn renorm_step(data: Seq<u8>, s: MqState) -> MqState {
    let s1 = if s.ct == 0 {
        bytein(data, s)
    } else {
        s
    };
    MqState { a: (s1.a * 2) as u32, c: (s1.c << 1u32) as u32, ct: (s1.ct - 1) as u32, bp: s1.bp }
}

/// The RENORMD procedure (C.3.3): shift until the top bit of the 16-bit A
/// register is set.
pub open spec fn renorm(data: Seq<u8>, s: MqState) -> MqState
    decreases 0x10000 - s.a,
{
    if s.a >= 0x8000 || s.a == 0 {
        s
    } else {
        renorm(data, renorm_step(data, s))
    }
}

/// The INITDEC procedure (C.3.5, in the form of Annex G of T.88).
pub open spec fn init_state(data: Seq<u8>) -> MqState {
    let s0 = MqState { c: ((byte_at(data, 0) as u32 ^ 0xffu32) << 16u32) as u32, a: 0, bp: 0, ct: 0 };
    let s1 = bytein(data, s0);
    MqState { c: (s1.c << 7u32) as u32, ct: (s1.ct - 7) as u32, a: 0x8000, bp: s1.bp }
}

/// A context: its index into Table C.2 and its more probable symbol.
pub struct CtxState {
    pub index: u32,
    pub mps: u32,
}

/// The MPS_EXCHANGE procedure (C.3.2): the decoded bit and the new context.
pub open spec fn mps_exchange(a: u32, cx: CtxState) -> (u32, CtxState) {
    let q = qe_table(cx.index);
    if a < q.qe {
        (
            (1 - cx.mps) as u32,
            CtxState {
                index: q.nlps as u32,
                mps: if q.switch {
                    (1 - cx.mps) as u32
                } else {
                    cx.mps
                },
            },
        )
    } else {
        (cx.mps, CtxState { index: q.nmps as u32, mps: cx.mps })
    }
}

/// The LPS_EXCHANGE procedure (C.3.2): the decoded bit and the new context.
/// The A register is set to Qe in either case.
pub open spec fn lps_exchange(a: u32, cx: CtxState) -> (u32, CtxState) {
    let q = qe_table(cx.index);
    if a < q.qe {
        (cx.mps, CtxState { index: q.nmps as u32, mps: cx.mps })
    } else {
        (
            (1 - cx.mps) as u32,
            CtxState {
                index: q.nlps as u32,
                mps: if q.switch {
                    (1 - cx.mps) as u32
                } else {
                    cx.mps
                },
            },
        )
    }
}

/// The DECODE procedure (C.3.2): the new registers, the new context and the
/// decoded bit.
pub open spec fn decode_step(data: Seq<u8>, s: MqState, cx: CtxState) -> (MqState, CtxState, u32) {
    let q = qe_table(cx.index);
    let a1 = (s.a - q.qe) as u32;
    if (s.c >> 16u32) < a1 {
        if a1 < 0x8000 {
            let (d, cx2) = mps_exchange(a1, cx);
            (renorm(data, MqState { a: a1, ..s }), cx2, d)
        } else {
            (MqState { a: a1, ..s }, cx, cx.mps)
        }
    } else {
        let c1 = (s.c - (a1 * 0x10000)) as u32;
        let (d, cx2) = lps_exchange(a1, cx);
        (renorm(data, MqState { a: q.qe, c: c1, ..s }), cx2, d)
    }
}

/// The registers are in the range the procedures keep them in.
pub open spec fn state_wf(data: Seq<u8>, s: MqState) -> bool {
    &&& 0x8000 <= s.a < 0x10000
    &&& s.ct <= 8
    &&& s.bp <= data.len()
    &&& data.len() < u32::MAX
}

/// BYTEIN never moves the pointer past the end of the data and sets the
/// counter to 7 or 8.
pub proof fn lemma_bytein(data: Seq<u8>, s: MqState)
    requires
        s.bp <= data.len() < u32::MAX,
    ensures
        bytein(data, s).bp <= data.len(),
        7 <= bytein(data, s).ct <= 8,
        bytein(data, s).a == s.a,
{
}

/// RENORMD leaves A with its top bit set and keeps the other registers in
/// range.
pub proof fn lemma_renorm_wf(data: Seq<u8>, s: MqState)
    requires
        0 < s.a < 0x10000,
        s.ct <= 8,
        s.bp <= data.len() < u32::MAX,
    ensures
        state_wf(data, renorm(data, s)),
    decreases 0x10000 - s.a,
{
    if s.a < 0x8000 {
        if s.ct == 0 {
            lemma_bytein(data, s);
        }
        lemma_renorm_wf(data, renorm_step(data, s));
    }
}

/// Shifting A and C left by `k` bits, as `k` RENORMD steps do while no byte
/// needs to be read.
pub open spec fn shift_by(s: MqState, k: u32) -> MqState {
    MqState { a: s.a << k, c: s.c << k, ct: (s.ct - k) as u32, bp: s.bp }
}

/// `k` steps of RENORMD that need no byte can be taken at once.
proof fn lemma_renorm_batch(data: Seq<u8>, s: MqState, k: u32)
    requires
        1 <= k <= s.ct,
        k < 16,
        0 < s.a < 0x8000,
        s.a << ((k - 1) as u32) < 0x8000,
    ensures
        renorm(data, s) == renorm(data, shift_by(s, k)),
    decreases k,
{
    let a = s.a;
    let c = s.c;
    assert(a < 0x8000 ==> a * 2 == a << 1u32) by (bit_vector);
    assert(c << 1u32 == c << 1u32);
    if k == 1 {
        assert(a << 0u32 == a) by (bit_vector);
        assert(renorm_step(data, s) == shift_by(s, k));
    } else {
        let s1 = renorm_step(data, s);
        let km1 = (k - 1) as u32;
        let km2 = (k - 2) as u32;
        assert(2 <= k < 16 && a < 0x8000 && a << km1 < 0x8000 ==> (a << 1u32) << km2 < 0x8000 && a << 1u32 < 0x8000) by (bit_vector)
            requires km1 == k - 1, km2 == k - 2;
        lemma_renorm_batch(data, s1, km1);
        assert(1 <= k < 16 ==> (a << 1u32) << km1 == a << k && (c << 1u32) << km1 == c << k) by (bit_vector)
            requires km1 == k - 1;
        assert(shift_by(s1, km1) == shift_by(s, k));
    }
}

/// A 15-bit value has between 17 and 31 leading zeros.
proof fn lemma_leading_zeros_range(a: u32)
    requires
        0 < a < 0x8000,
    ensures
        17 <= u32_leading_zeros(a) <= 31,
{
    vstd::std_specs::bits::axiom_u32_leading_zeros(a);
    let lz = u32_leading_zeros(a);
    assert(lz <= 31);
    assert(0 < a < 0x8000 && lz <= 31 && (a >> ((31 - lz) as u32)) & 1u32 != 0u32 ==> 17 <= lz) by (bit_vector);
}

/// The facts about `leading_zeros` that the batched renormalization uses.
proof fn lemma_leading_zeros_batch(a: u32, batch: u32)
    requires
        0 < a < 0x8000,
        1 <= batch <= u32_leading_zeros(a) - 16,
    ensures
        17 <= u32_leading_zeros(a) <= 31,
        a << ((batch - 1) as u32) < 0x8000,
        a << batch < 0x10000,
        a << batch > a,
        batch == u32_leading_zeros(a) - 16 ==> a << batch >= 0x8000,
{
    vstd::std_specs::bits::axiom_u32_leading_zeros(a);
    let lz = u32_leading_zeros(a);
    assert(lz <= 31);
    assert(0 < a < 0x8000 && lz <= 31 && (a >> ((31 - lz) as u32)) & 1u32 != 0u32 ==> 17 <= lz) by (bit_vector);
    let bm1 = (batch - 1) as u32;
    assert(0 < a < 0x8000 && 17 <= lz <= 31 && (a >> ((31 - lz) as u32)) & 1u32 != 0u32
        && a >> ((32 - lz) as u32) == 0 && 1 <= batch <= lz - 16 && bm1 == batch - 1 ==> {
        &&& a << bm1 < 0x8000
        &&& a << batch < 0x10000
        &&& a << batch > a
        &&& (batch == lz - 16 ==> a << batch >= 0x8000)
    }) by (bit_vector);
}

/// Reading a byte when the counter is exhausted does not change the result
/// of RENORMD.
proof fn lemma_renorm_bytein(data: Seq<u8>, s: MqState)
    requires
        s.ct == 0,
        0 < s.a < 0x8000,
        s.bp <= data.len() < u32::MAX,
    ensures
        renorm(data, s) == renorm(data, bytein(data, s)),
{
    lemma_bytein(data, s);
    assert(renorm_step(data, s) == renorm_step(data, bytein(data, s)));
}

/// Bits 0-6 hold the index (0-46), bit 7 the more probable symbol.
#[derive(Clone, Copy)]
pub struct ArithmeticDecoderContext(u8);

impl View for ArithmeticDecoderContext {
    type V = CtxState;

    closed spec fn view(&self) -> CtxState {
        CtxState { index: (self.0 & 0x7f) as u32, mps: (self.0 >> 7u8) as u32 }
    }
}

impl Default for ArithmeticDecoderContext {
    fn default() -> (r: Self)
        ensures
            r@ == (CtxState { index: 0, mps: 0 }),
    {
        let r = ArithmeticDecoderContext(0);
        assert((0u8 & 0x7f) == 0 && (0u8 >> 7u8) == 0) by (bit_vector);
        r
    }
}

impl ArithmeticDecoderContext {
    /// A context is valid when its index is an index of Table C.2.
    pub open spec fn wf(&self) -> bool {
        self@.index < 47 && self@.mps <= 1
    }

    /// The index into Table C.2.
    pub fn index(self) -> (r: u32)
        ensures
            r == self@.index,
            r < 128,
    {
        let v = self.0;
        assert(v & 0x7f < 128) by (bit_vector);
        (self.0 & 0x7F) as u32
    }

    /// The more probable symbol.
    pub fn mps(self) -> (r: u32)
        ensures
            r == self@.mps,
            r <= 1,
    {
        let v = self.0;
        assert(v >> 7u8 <= 1) by (bit_vector);
        (self.0 >> 7) as u32
    }

    fn set_index(&mut self, index: u8)
        requires
            index < 128,
        ensures
            final(self)@ == (CtxState { index: index as u32, mps: old(self)@.mps }),
            final(self)@.mps <= 1,
    {
        let v = self.0;
        assert(index < 128 ==> ((v & 0x80) | index) & 0x7f == index && ((v & 0x80) | index) >> 7u8 == v >> 7u8) by (bit_vector);
        assert(v >> 7u8 <= 1) by (bit_vector);
        self.0 = (self.0 & 0x80) | index;
    }

    fn xor_mps(&mut self, val: u32)
        requires
            val <= 1,
        ensures
            final(self)@ == (CtxState {
                index: old(self)@.index,
                mps: if val == 1 {
                    (1 - old(self)@.mps) as u32
                } else {
                    old(self)@.mps
                },
            }),
            final(self)@.mps <= 1,
    {
        let v = self.0;
        let m = ((val & 1) << 7) as u8;
        assert(val <= 1 ==> (((val & 1) << 7u32) as u8 == if val == 1 { 0x80u8 } else { 0u8 })) by (bit_vector);
        assert((v ^ 0x80u8) & 0x7f == v & 0x7f && (v ^ 0x80u8) >> 7u8 == 1 - (v >> 7u8)) by (bit_vector);
        assert((v ^ 0u8) == v) by (bit_vector);
        assert(v >> 7u8 <= 1) by (bit_vector);
        self.0 = self.0 ^ m;
    }

    /// Reset to index 0 with a more probable symbol of 0.
    pub fn reset(&mut self)
        ensures
            final(self)@ == (CtxState { index: 0, mps: 0 }),
    {
        self.0 = 0;
        assert((0u8 & 0x7f) == 0 && (0u8 >> 7u8) == 0) by (bit_vector);
    }

    /// Reset to the given index with a more probable symbol of 0.
    pub fn reset_with_index(&mut self, index: u8)
        requires
            index < 128,
        ensures
            final(self)@ == (CtxState { index: index as u32, mps: 0 }),
    {
        self.0 = index;
        assert(index < 128 ==> index & 0x7f == index && index >> 7u8 == 0) by (bit_vector);
    }
}

/// The MQ arithmetic decoder.
pub struct ArithmeticDecoder<'a> {
    /// The underlying encoded data.
    data: &'a [u8],
    /// The C-register (see Table C.1).
    c: u32,
    /// The A-register (see Table C.1).
    a: u32,
    /// The pointer to the current byte.
    base_pointer: u32,
    /// The bit shift counter.
    shift_count: u32,
}

impl<'a> ArithmeticDecoder<'a> {
    /// The encoded data.
    pub closed spec fn bytes(&self) -> Seq<u8> {
        self.data@
    }

    /// The registers.
    pub closed spec fn state(&self) -> MqState {
        MqState { c: self.c, a: self.a, bp: self.base_pointer, ct: self.shift_count }
    }

    pub open spec fn wf(&self) -> bool {
        state_wf(self.bytes(), self.state())
    }

    /// Create a decoder and run INITDEC.
    pub fn new(data: &'a [u8]) -> (r: Self)
        requires
            data@.len() < u32::MAX,
        ensures
            r.wf(),
            r.bytes() == data@,
            r.state() == init_state(data@),
    {
        let mut decoder = ArithmeticDecoder { data, c: 0, a: 0, base_pointer: 0, shift_count: 0 };

        decoder.initialize();

        decoder
    }

    /// Read the next bit using the given context label.
    pub fn read_bit(&mut self, context: &mut ArithmeticDecoderContext) -> (r: u32)
        requires
            old(self).wf(),
            old(context).wf(),
        ensures
            final(self).wf(),
            final(context).wf(),
            final(self).bytes() == old(self).bytes(),
            (final(self).state(), final(context)@, r) == decode_step(
                old(self).bytes(),
                old(self).state(),
                old(context)@,
            ),
            r <= 1,
    {
        self.decode(context)
    }

    /// The INITDEC procedure from C.3.5.
    ///
    /// We use the version from Annex G in <https://www.itu.int/rec/T-REC-T.88-201808-I>.
    fn initialize(&mut self)
        requires
            old(self).state() == (MqState { c: 0, a: 0, bp: 0, ct: 0 }),
            old(self).bytes().len() < u32::MAX,
        ensures
            final(self).wf(),
            final(self).bytes() == old(self).bytes(),
            final(self).state() == init_state(old(self).bytes()),
    {
        self.c = ((self.current_byte() as u32) ^ 0xff) << 16;
        proof {
            lemma_bytein(self.bytes(), self.state());
        }
        self.read_byte();

        self.c = self.c << 7;
        self.shift_count = self.shift_count - 7;
        self.a = 0x8000;
    }

    /// The BYTEIN procedure from C.3.4.
    ///
    /// We use the version from Annex G from <https://www.itu.int/rec/T-REC-T.88-201808-I>.
    fn read_byte(&mut self)
        requires
            old(self).state().bp <= old(self).bytes().len() < u32::MAX,
        ensures
            final(self).bytes() == old(self).bytes(),
            final(self).state() == bytein(old(self).bytes(), old(self).state()),
    {
        if self.current_byte() == 0xff {
            let b1 = self.next_byte();

            if b1 > 0x8f {
                self.shift_count = 8;
            } else {
                self.base_pointer = self.base_pointer + 1;
                self.c = self.c.wrapping_add(0xfe00).wrapping_sub((self.current_byte() as u32) << 9);
                self.shift_count = 7;
            }
        } else {
            self.base_pointer = self.base_pointer + 1;
            self.c = self.c.wrapping_add(0xff00).wrapping_sub((self.current_byte() as u32) << 8);
            self.shift_count = 8;
        }
    }

    /// The RENORMD procedure from C.3.3, with the shifts batched.
    fn renormalize(&mut self)
        requires
            0 < old(self).state().a < 0x10000,
            old(self).state().ct <= 8,
            old(self).state().bp <= old(self).bytes().len() < u32::MAX,
        ensures
            final(self).wf(),
            final(self).bytes() == old(self).bytes(),
            final(self).state() == renorm(old(self).bytes(), old(self).state()),
    {
        let ghost data = self.bytes();
        while self.a & 0x8000 == 0
            invariant
                self.bytes() == data,
                0 < self.a < 0x10000,
                self.shift_count <= 8,
                self.base_pointer <= data.len() < u32::MAX,
                renorm(data, self.state()) == renorm(data, old(self).state()),
            decreases 0x10000 - self.a,
        {
            let a0 = self.a;
            assert(0 < a0 < 0x10000 ==> (a0 & 0x8000 == 0 <==> a0 < 0x8000)) by (bit_vector);
            if self.shift_count == 0 {
                proof {
                    lemma_renorm_bytein(data, self.state());
                    lemma_bytein(data, self.state());
                }
                self.read_byte();
            }
            let ghost before = self.state();
            let lz = self.a.leading_zeros();
            proof {
                lemma_leading_zeros_range(self.a);
            }
            let shifts_needed = lz - 16;
            let batch = if shifts_needed < self.shift_count {
                shifts_needed
            } else {
                self.shift_count
            };
            proof {
                lemma_leading_zeros_batch(self.a, batch);
                lemma_renorm_batch(data, before, batch);
            }
            self.a = self.a << batch;
            self.c = self.c << batch;
            self.shift_count = self.shift_count - batch;
        }
        proof {
            let a1 = self.a;
            assert(0 < a1 < 0x10000 && a1 & 0x8000 != 0 ==> a1 >= 0x8000) by (bit_vector);
        }
    }

    /// The `LPS_EXCHANGE` procedure from C.3.2, in branchless form.
    fn exchange_lps(&mut self, context: &mut ArithmeticDecoderContext, qe_entry: &QeData) -> (r: u32)
        requires
            old(context).wf(),
            *qe_entry == qe_table(old(context)@.index),
        ensures
            final(self).state() == (MqState { a: qe_entry.qe, ..old(self).state() }),
            final(self).bytes() == old(self).bytes(),
            (r, final(context)@) == lps_exchange(old(self).state().a, old(context)@),
            final(context).wf(),
    {
        proof {
            lemma_qe_table(context@.index);
        }
        let cond: u32 = if self.a < qe_entry.qe { 1 } else { 0 };
        let inv_cond = 1 - cond;

        self.a = qe_entry.qe;
        // d = if cond { mps } else { 1 - mps }
        let d = context.mps() ^ inv_cond;
        // flip mps only when !cond && switch
        let sw: u32 = if qe_entry.switch { 1 } else { 0 };
        assert(sw <= 1 ==> (1u32 & sw) == sw && (0u32 & sw) == 0) by (bit_vector);
        context.xor_mps(inv_cond & sw);
        // index = if cond { nmps } else { nlps }
        let cond_u8 = cond as u8;
        let inv_cond_u8 = inv_cond as u8;
        proof {
            if cond == 1 {
                assert(cond_u8 * qe_entry.nmps + inv_cond_u8 * qe_entry.nlps == qe_entry.nmps);
            } else {
                assert(cond_u8 * qe_entry.nmps + inv_cond_u8 * qe_entry.nlps == qe_entry.nlps);
            }
        }
        context.set_index(cond_u8 * qe_entry.nmps + inv_cond_u8 * qe_entry.nlps);
        proof {
            let m = old(context)@.mps;
            assert(m <= 1 ==> (m ^ 1u32) == 1 - m && (m ^ 0u32) == m) by (bit_vector);
        }

        d
    }

    /// The DECODE procedure from C.3.2.
    ///
    /// We use the version from Annex G from <https://www.itu.int/rec/T-REC-T.88-201808-I>.
    fn decode(&mut self, context: &mut ArithmeticDecoderContext) -> (r: u32)
        requires
            old(self).wf(),
            old(context).wf(),
        ensures
            final(self).wf(),
            final(context).wf(),
            final(self).bytes() == old(self).bytes(),
            (final(self).state(), final(context)@, r) == decode_step(
                old(self).bytes(),
                old(self).state(),
                old(context)@,
            ),
            r <= 1,
    {
        let qe_entry = qe_entry(context.index());
        proof {
            lemma_qe_table(context@.index);
        }

        self.a = self.a - qe_entry.qe;

        let d;
        let a1 = self.a;
        let c = self.c;
        assert(a1 < 0x10000 ==> (a1 & 0x8000 == 0 <==> a1 < 0x8000)) by (bit_vector);

        if (self.c >> 16) < self.a {
            if self.a & 0x8000 == 0 {
                d = self.exchange_mps(context, &qe_entry);
                self.renormalize();
            } else {
                d = context.mps();
            }
        } else {
            assert(a1 < 0x10000 && (c >> 16u32) >= a1 ==> c >= a1 << 16u32 && a1 << 16u32 == a1 * 0x10000) by (bit_vector);
            self.c = self.c - (self.a << 16);

            d = self.exchange_lps(context, &qe_entry);
            self.renormalize();
        }

        d
    }

    /// The `MPS_EXCHANGE` procedure from C.3.2, in branchless form.
    fn exchange_mps(&mut self, context: &mut ArithmeticDecoderContext, qe_entry: &QeData) -> (r: u32)
        requires
            old(context).wf(),
            *qe_entry == qe_table(old(context)@.index),
        ensures
            *final(self) == *old(self),
            (r, final(context)@) == mps_exchange(old(self).state().a, old(context)@),
            final(context).wf(),
    {
        proof {
            lemma_qe_table(context@.index);
        }
        let cond: u32 = if self.a < qe_entry.qe { 1 } else { 0 };
        let inv_cond = 1 - cond;
        // d = if cond { 1 - mps } else { mps }
        let d = context.mps() ^ cond;
        // flip mps only when cond && switch
        let sw: u32 = if qe_entry.switch { 1 } else { 0 };
        assert(sw <= 1 ==> (1u32 & sw) == sw && (0u32 & sw) == 0) by (bit_vector);
        context.xor_mps(cond & sw);
        // index = if cond { nlps } else { nmps }
        let cond_u8 = cond as u8;
        let inv_cond_u8 = inv_cond as u8;
        proof {
            if cond == 1 {
                assert(cond_u8 * qe_entry.nlps + inv_cond_u8 * qe_entry.nmps == qe_entry.nlps);
            } else {
                assert(cond_u8 * qe_entry.nlps + inv_cond_u8 * qe_entry.nmps == qe_entry.nmps);
            }
        }
        context.set_index(cond_u8 * qe_entry.nlps + inv_cond_u8 * qe_entry.nmps);
        proof {
            let m = old(context)@.mps;
            assert(m <= 1 ==> (m ^ 1u32) == 1 - m && (m ^ 0u32) == m) by (bit_vector);
        }
        d
    }

    /// The byte at the current pointer, or 0xFF past the end of the data.
    fn current_byte(&self) -> (r: u8)
        ensures
            r == byte_at(self.bytes(), self.state().bp as int),
    {
        // "The number of bytes corresponding to the coding passes is
        // specified in the packet header. Often at that point there are
        // more symbols to be decoded. Therefore, the decoder shall extend
        // the input bit stream to the arithmetic coder with 0xFF bytes,
        // as necessary, until all symbols have been decoded."
        let i = self.base_pointer as usize;
        if i < self.data.len() {
            self.data[i]
        } else {
            0xFF
        }
    }

    /// The byte after the current pointer, or 0xFF past the end of the data.
    fn next_byte(&self) -> (r: u8)
        requires
            self.state().bp < u32::MAX,
        ensures
            r == byte_at(self.bytes(), self.state().bp + 1),
    {
        let i = (self.base_pointer + 1) as usize;
        if i < self.data.len() {
            self.data[i]
        } else {
            0xFF
        }
    }
}

} // verus!
