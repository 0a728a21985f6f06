use steganos::bits::{get_lsb, Byte};
use steganos::frame::EncodedType;

#[test]
fn bit_order_round_trip_all_bytes() {
    // Folding the bit expansion gives the byte back, for every byte value.
    for b in 0..=255u8 {
        let bits = Byte::new(b).get_bits();
        let back = Byte::from_bits(&bits[..]);
        assert_eq!(back.byte, b);
    }
}

#[test]
fn get_bits_msb_first() {
    let bits = Byte::new(0b1000_0001).get_bits();
    assert_eq!(bits, vec![true, false, false, false, false, false, false, true]);
}

#[test]
fn from_bits_short_run_uses_low_bits() {
    let back = Byte::from_bits(&[true, false, true]);
    assert_eq!(back.byte, 0b101);
}

#[test]
fn from_bits_empty_is_zero() {
    assert_eq!(Byte::from_bits(&[]).byte, 0);
}

#[test]
fn lsb_of_even_and_odd() {
    assert!(!get_lsb(0b0100_1010));
    assert!(get_lsb(0b0100_1011));
    assert!(!get_lsb(0));
    assert!(get_lsb(255));
}

#[test]
fn u32_to_big_endian_bytes() {
    let bs = Byte::from_u32(0x01020304);
    let raw: Vec<u8> = bs.iter().map(|b| b.byte).collect();
    assert_eq!(raw, vec![1, 2, 3, 4]);
}

#[test]
fn u32_to_bytes_of_800() {
    let bs = Byte::from_u32(800);
    let raw: Vec<u8> = bs.iter().map(|b| b.byte).collect();
    assert_eq!(raw, vec![0, 0, 3, 32]);
}

#[test]
fn str_to_bytes() {
    let bs = Byte::from_str("abc");
    let raw: Vec<u8> = bs.iter().map(|b| b.byte).collect();
    assert_eq!(raw, vec![97, 98, 99]);
}

#[test]
fn ending_seq_is_terminator() {
    let bs = Byte::ending_seq();
    let raw: Vec<u8> = bs.iter().map(|b| b.byte).collect();
    assert_eq!(raw, b"$t36an0s".to_vec());
}

#[test]
fn byte_as_char_identity() {
    assert_eq!(Byte::new(104).as_char(), 'h');
    assert_eq!(Byte::new(0).as_char(), '\0');
}

#[test]
fn header_size_is_three() {
    assert_eq!(EncodedType::header_size(), 3);
}

#[test]
fn text_frame_bytes() {
    let frame = EncodedType::Text(String::from("hi")).to_bytes();
    let raw: Vec<u8> = frame.iter().map(|b| b.byte).collect();
    let mut expected = b"txthi".to_vec();
    expected.extend_from_slice(b"$t36an0s");
    assert_eq!(raw, expected);
}

#[test]
fn text_frame_bits_msb_first() {
    // "txt" begins with 't' = 0x74 = 0b0111_0100.
    let bits = EncodedType::Text(String::new()).to_bits();
    assert_eq!(bits.len(), (3 + 8) * 8);
    assert_eq!(
        &bits[..8],
        &[false, true, true, true, false, true, false, false]
    );
}
