use hayro_jpeg2000::j2c::bitplane::{
    refinement_context, sign_coding_context, zero_coding_context, Coefficient, CoefficientState,
    NeighborSignificances,
};
use hayro_jpeg2000::j2c::blocks::SubBandType;
use hayro_jpeg2000::j2c::rect::IntRect;
use hayro_jpeg2000::j2c::segment::segment_idx_for_bypass;

// The bits of the neighbor significances.
const TOP_LEFT: u8 = 0x80;
const TOP: u8 = 0x40;
const TOP_RIGHT: u8 = 0x20;
const LEFT: u8 = 0x10;
const BOTTOM_LEFT: u8 = 0x08;
const RIGHT: u8 = 0x04;
const BOTTOM_RIGHT: u8 = 0x02;
const BOTTOM: u8 = 0x01;

#[test]
fn zero_coding_context_low_low() {
    let ll = SubBandType::LowLow;
    assert_eq!(zero_coding_context(ll, LEFT | RIGHT), 8);
    assert_eq!(zero_coding_context(ll, LEFT | TOP), 7);
    assert_eq!(zero_coding_context(ll, RIGHT | BOTTOM_LEFT), 6);
    assert_eq!(zero_coding_context(ll, LEFT), 5);
    assert_eq!(zero_coding_context(ll, TOP | BOTTOM), 4);
    assert_eq!(zero_coding_context(ll, BOTTOM | TOP_RIGHT), 3);
    assert_eq!(zero_coding_context(ll, TOP_LEFT | BOTTOM_RIGHT), 2);
    assert_eq!(zero_coding_context(ll, TOP_RIGHT), 1);
    assert_eq!(zero_coding_context(ll, 0), 0);
    // LH is coded like LL.
    assert_eq!(zero_coding_context(SubBandType::LowHigh, LEFT | TOP), 7);
}

#[test]
fn zero_coding_context_high_low_swaps_directions() {
    let hl = SubBandType::HighLow;
    assert_eq!(zero_coding_context(hl, TOP | BOTTOM), 8);
    assert_eq!(zero_coding_context(hl, TOP | LEFT), 7);
    assert_eq!(zero_coding_context(hl, TOP), 5);
    assert_eq!(zero_coding_context(hl, LEFT | RIGHT), 4);
    assert_eq!(zero_coding_context(hl, RIGHT), 3);
}

#[test]
fn zero_coding_context_high_high() {
    let hh = SubBandType::HighHigh;
    assert_eq!(zero_coding_context(hh, TOP_LEFT | TOP_RIGHT | BOTTOM_LEFT), 8);
    assert_eq!(zero_coding_context(hh, TOP_LEFT | TOP_RIGHT | LEFT), 7);
    assert_eq!(zero_coding_context(hh, TOP_LEFT | BOTTOM_RIGHT), 6);
    assert_eq!(zero_coding_context(hh, TOP_LEFT | LEFT | TOP), 5);
    assert_eq!(zero_coding_context(hh, BOTTOM_LEFT | RIGHT), 4);
    assert_eq!(zero_coding_context(hh, BOTTOM_RIGHT), 3);
    assert_eq!(zero_coding_context(hh, LEFT | BOTTOM), 2);
    assert_eq!(zero_coding_context(hh, TOP), 1);
    assert_eq!(zero_coding_context(hh, 0), 0);
}

#[test]
fn sign_coding_contexts() {
    let none = (false, 0);
    let pos = (true, 0);
    let neg = (true, 1);
    // (top, left, right, bottom)
    assert_eq!(sign_coding_context(none, pos, none, pos), (13, 0));
    assert_eq!(sign_coding_context(none, pos, none, none), (12, 0));
    assert_eq!(sign_coding_context(neg, pos, none, none), (11, 0));
    assert_eq!(sign_coding_context(pos, none, none, none), (10, 0));
    assert_eq!(sign_coding_context(none, none, none, none), (9, 0));
    assert_eq!(sign_coding_context(pos, pos, neg, neg), (9, 0));
    assert_eq!(sign_coding_context(neg, none, none, none), (10, 1));
    assert_eq!(sign_coding_context(pos, neg, none, none), (11, 1));
    assert_eq!(sign_coding_context(none, none, neg, none), (12, 1));
    assert_eq!(sign_coding_context(neg, neg, neg, neg), (13, 1));
}

#[test]
fn refinement_contexts() {
    assert_eq!(refinement_context(1, 0), 16);
    assert_eq!(refinement_context(1, LEFT), 16);
    assert_eq!(refinement_context(0, LEFT), 15);
    assert_eq!(refinement_context(0, 0), 14);
}

#[test]
fn neighbor_significances_bits() {
    let mut n = NeighborSignificances::new();
    n.set_top_left();
    n.set_bottom();
    assert_eq!(n.all(), TOP_LEFT | BOTTOM);
    assert_eq!(n.all_without_bottom(), TOP_LEFT);
    n.set_right();
    assert_eq!(n.all(), TOP_LEFT | RIGHT | BOTTOM);
}

#[test]
fn coefficient_state_flags() {
    let mut s = CoefficientState::new();
    assert!(!s.is_significant());
    assert!(s.should_decode_cleanup());
    assert!(!s.should_decode_refinement());
    s.set_zero_coded(1);
    assert!(!s.should_decode_cleanup());
    s.set_zero_coded(0);
    s.set_significant();
    assert!(s.is_significant());
    assert_eq!(s.significance(), 1);
    assert!(s.should_decode_refinement());
    assert_eq!(s.magnitude_refinement(), 0);
    s.set_magnitude_refined();
    assert_eq!(s.magnitude_refinement(), 1);
}

#[test]
fn coefficient_value() {
    let mut c = Coefficient::new();
    assert_eq!(c.get(), 0);
    c.push_bit_at(1, 2);
    c.push_bit_at(1, 0);
    assert_eq!(c.get(), 5);
    c.set_sign(1);
    assert_eq!(c.sign(), 1);
    assert_eq!(c.get(), -5);
}

#[test]
fn rect_intersection() {
    let a = IntRect::from_ltrb(0, 0, 10, 10);
    let b = IntRect::from_xywh(5, 2, 10, 3);
    let c = a.intersect(b);
    assert_eq!(c, IntRect::from_ltrb(5, 2, 10, 5));
    assert_eq!(b.intersect(a), c);
    assert_eq!(c.width(), 5);
    assert_eq!(c.height(), 3);
    // Rectangles that are apart intersect in the empty rectangle.
    let d = IntRect::from_ltrb(20, 20, 30, 30);
    assert_eq!(a.intersect(d), IntRect::from_ltrb(0, 0, 0, 0));
}

#[test]
fn bypass_segments() {
    let segments: Vec<u8> = (0..19).map(segment_idx_for_bypass).collect();
    assert_eq!(segments, vec![0, 0, 0, 0, 0, 0, 0, 0, 0, 0, 1, 1, 2, 3, 3, 4, 5, 5, 6]);
}
