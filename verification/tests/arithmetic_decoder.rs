use hayro_jpeg2000::j2c::arithmetic_decoder::{ArithmeticDecoder, ArithmeticDecoderContext};

// Adapted from the Serenity decoder, which in turn took the example from
// https://www.itu.int/rec/T-REC-T.88-201808-I
// H.2 Test sequence for arithmetic coder.
#[test]
fn decode() {
    let input = [
        0x84, 0xC7, 0x3B, 0xFC, 0xE1, 0xA1, 0x43, 0x04, 0x02, 0x20, 0x00, 0x00, 0x41, 0x0D, 0xBB,
        0x86, 0xF4, 0x31, 0x7F, 0xFF, 0x88, 0xFF, 0x37, 0x47, 0x1A, 0xDB, 0x6A, 0xDF, 0xFF, 0xAC,
    ];

    let expected_output = [
        0x00, 0x02, 0x00, 0x51, 0x00, 0x00, 0x00, 0xC0, 0x03, 0x52, 0x87, 0x2A, 0xAA, 0xAA, 0xAA,
        0xAA, 0x82, 0xC0, 0x20, 0x00, 0xFC, 0xD7, 0x9E, 0xF6, 0xBF, 0x7F, 0xED, 0x90, 0x4F, 0x46,
        0xA3, 0xBF,
    ];

    let mut decoder = ArithmeticDecoder::new(&input[..]);
    let mut out_buf = vec![0u8; expected_output.len()];
    let mut ctx = ArithmeticDecoderContext::default();

    for byte in out_buf.iter_mut() {
        for _ in 0..8 {
            let next = decoder.read_bit(&mut ctx) as u8;
            *byte = (*byte << 1) | next;
        }
    }

    assert_eq!(out_buf, expected_output);
}
