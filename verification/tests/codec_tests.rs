use steganos::bits::Byte;
use steganos::embed::{embed_image_in_image, embed_text_in_image, write_bits_to_image, StegError};
use steganos::extract::{
    decode_image, dump_bytes, read_bytes_as_image, read_bytes_as_text, read_bytes_as_u32,
    scan_frame_bytes, DecodedPayload,
};
use steganos::frame::EncodedType;
use steganos::grid::PixelGrid;

fn zero_grid(width: u32, height: u32) -> PixelGrid {
    let n = (width * height * 4) as usize;
    PixelGrid::new(width, height, vec![0u8; n]).unwrap()
}

/// A carrier of one channel per bit of `bytes`, each channel holding its bit
/// in the least significant position; laid out as a single pixel row.
fn grid_carrying_bytes(bytes: &[u8]) -> PixelGrid {
    let mut data: Vec<u8> = Vec::new();
    for &b in bytes {
        for k in 0..8 {
            data.push((b >> (7 - k)) & 1);
        }
    }
    let width = (2 * bytes.len()) as u32;
    PixelGrid::new(width, 1, data).unwrap()
}

fn raw(bytes: &[Byte]) -> Vec<u8> {
    bytes.iter().map(|b| b.byte).collect()
}

#[test]
fn text_round_trip() {
    let carrier = zero_grid(16, 16);
    let encoded = embed_text_in_image(&carrier, "hello world").unwrap();
    assert_eq!(encoded.width, 16);
    assert_eq!(encoded.height, 16);
    match decode_image(&encoded, false).unwrap() {
        DecodedPayload::Text(t) => assert_eq!(t, "hello world"),
        _ => panic!("expected a text payload"),
    }
}

#[test]
fn text_round_trip_patterned_carrier() {
    let n = (20 * 20 * 4) as usize;
    let data: Vec<u8> = (0..n).map(|i| (i % 251) as u8).collect();
    let carrier = PixelGrid::new(20, 20, data).unwrap();
    let encoded = embed_text_in_image(&carrier, "patterned").unwrap();
    match decode_image(&encoded, false).unwrap() {
        DecodedPayload::Text(t) => assert_eq!(t, "patterned"),
        _ => panic!("expected a text payload"),
    }
}

#[test]
fn image_round_trip() {
    let carrier = zero_grid(16, 16);
    let embedded = PixelGrid::new(2, 1, vec![10, 20, 30, 40, 50, 60, 70, 80]).unwrap();
    let encoded = embed_image_in_image(&carrier, embedded).unwrap();
    match decode_image(&encoded, false).unwrap() {
        DecodedPayload::Image(g) => {
            assert_eq!(g.width, 2);
            assert_eq!(g.height, 1);
            assert_eq!(g.data, vec![10, 20, 30, 40, 50, 60, 70, 80]);
        }
        _ => panic!("expected an image payload"),
    }
}

#[test]
fn capacity_rejected_above_boundary() {
    // 2*2*32 = 128 channel bits needed, 4*4*4 = 64 channels available.
    let carrier = zero_grid(4, 4);
    let embedded = zero_grid(2, 2);
    assert_eq!(embed_image_in_image(&carrier, embedded), Err(StegError::Capacity));
}

#[test]
fn capacity_accepted_at_boundary() {
    // 2*2*32 = 128 == 8*4*4 = 128: exactly at the threshold.
    let carrier = zero_grid(8, 4);
    let embedded = zero_grid(2, 2);
    let encoded = embed_image_in_image(&carrier, embedded).unwrap();
    assert_eq!(encoded.width, 8);
    assert_eq!(encoded.height, 4);
}

#[test]
fn tiny_carrier_rejects_short_text() {
    // "txt" + "hi" + terminator = 13 bytes = 104 bits > 64 channels.
    let carrier = zero_grid(4, 4);
    assert_eq!(embed_text_in_image(&carrier, "hi"), Err(StegError::Capacity));
}

#[test]
fn high_bits_survive_encoding() {
    let n = (16 * 16 * 4) as usize;
    let data: Vec<u8> = (0..n).map(|i| (i * 7 % 256) as u8).collect();
    let carrier = PixelGrid::new(16, 16, data.clone()).unwrap();
    let encoded = embed_text_in_image(&carrier, "payload").unwrap();
    let frame_bits = (3 + 7 + 8) * 8;
    for i in 0..n {
        assert_eq!(encoded.data[i] >> 1, data[i] >> 1);
        if i >= frame_bits {
            assert_eq!(encoded.data[i], data[i]);
        }
    }
}

#[test]
fn write_bits_sets_lsbs() {
    let carrier = zero_grid(1, 1);
    let bits = vec![true, false, true];
    let out = write_bits_to_image(&carrier, &bits);
    assert_eq!(out.data, vec![1, 0, 1, 0]);
}

#[test]
fn terminator_halts_scan_at_its_end() {
    // 5 payload bytes, the terminator, then trailing junk the scanner must
    // never reach.
    let mut stream = b"abcde".to_vec();
    stream.extend_from_slice(b"$t36an0s");
    stream.extend_from_slice(b"zzz");
    let carrier = grid_carrying_bytes(&stream);
    let (payload, found) = scan_frame_bytes(&carrier);
    assert!(found);
    assert_eq!(raw(&payload), b"abcde".to_vec());
}

#[test]
fn scan_without_terminator_consumes_everything() {
    let carrier = grid_carrying_bytes(b"no sentinel here");
    let (payload, found) = scan_frame_bytes(&carrier);
    assert!(!found);
    assert_eq!(raw(&payload), b"no sentinel here".to_vec());
}

#[test]
fn unknown_header_falls_back_to_hex_dump() {
    let mut stream = b"xyzAB".to_vec();
    stream.extend_from_slice(b"$t36an0s");
    let carrier = grid_carrying_bytes(&stream);
    match decode_image(&carrier, false).unwrap() {
        DecodedPayload::Unknown(s) => assert_eq!(s, "4142"),
        _ => panic!("expected the hex-dump fallback"),
    }
}

#[test]
fn hexdump_flag_dumps_everything_scanned() {
    let mut stream = b"txthi".to_vec();
    stream.extend_from_slice(b"$t36an0s");
    let carrier = grid_carrying_bytes(&stream);
    match decode_image(&carrier, true).unwrap() {
        DecodedPayload::Unknown(s) => {
            assert_eq!(s, "747874686924743336616e3073");
        }
        _ => panic!("expected a hex dump"),
    }
}

#[test]
fn decode_of_blank_carrier_is_unknown() {
    let carrier = zero_grid(4, 4);
    match decode_image(&carrier, false).unwrap() {
        DecodedPayload::Unknown(s) => {
            // 64 channels give 8 zero bytes; 3 go to the header, 5 remain.
            assert_eq!(s, "0000000000");
        }
        _ => panic!("expected the hex-dump fallback"),
    }
}

#[test]
fn malformed_dimensions_are_fatal() {
    // An "img" frame whose 10 dimension bytes hold no delimiters.
    let mut stream = b"img".to_vec();
    stream.extend_from_slice(&[1, 2, 3, 4, 5, 6, 7, 8, 9, 10]);
    stream.extend_from_slice(b"$t36an0s");
    let carrier = grid_carrying_bytes(&stream);
    assert_eq!(decode_image(&carrier, false), Err(StegError::MalformedDimensions));
}

#[test]
fn misplaced_delimiter_is_fatal() {
    // A delimiter after only two integer bytes.
    let mut stream = b"img".to_vec();
    stream.extend_from_slice(&[0, 0, 124, 0, 124, 0, 0, 0, 7, 124]);
    stream.extend_from_slice(b"$t36an0s");
    let carrier = grid_carrying_bytes(&stream);
    assert_eq!(decode_image(&carrier, false), Err(StegError::MalformedDimensions));
}

#[test]
fn oversized_dimensions_are_fatal() {
    // Claims a 2^31 by 2^31 image: 2^64 channel bytes.
    let mut stream = b"img".to_vec();
    stream.extend_from_slice(&[128, 0, 0, 0, 124, 128, 0, 0, 0, 124]);
    stream.extend_from_slice(b"$t36an0s");
    let carrier = grid_carrying_bytes(&stream);
    assert_eq!(decode_image(&carrier, false), Err(StegError::OversizedDimensions));
}

#[test]
fn truncated_image_body_fills_with_zeros() {
    // Dimensions claim 2x1 (8 channel bytes) but only one complete pixel
    // window and one stray byte follow.
    let mut body: Vec<Byte> = Vec::new();
    for &b in &[0u8, 0, 0, 2, 124, 0, 0, 0, 1, 124, 9, 8, 7, 6, 5] {
        body.push(Byte::new(b));
    }
    let g = read_bytes_as_image(body).unwrap();
    assert_eq!(g.width, 2);
    assert_eq!(g.height, 1);
    assert_eq!(g.data, vec![9, 8, 7, 6, 0, 0, 0, 0]);
}

#[test]
fn text_skips_null_bytes() {
    let bytes = vec![Byte::new(104), Byte::new(0), Byte::new(105), Byte::new(0)];
    assert_eq!(read_bytes_as_text(bytes), "hi");
}

#[test]
fn text_round_trip_beyond_ascii() {
    let carrier = zero_grid(16, 16);
    let encoded = embed_text_in_image(&carrier, "héllo wörld — ✓").unwrap();
    match decode_image(&encoded, false).unwrap() {
        DecodedPayload::Text(t) => assert_eq!(t, "héllo wörld — ✓"),
        _ => panic!("expected a text payload"),
    }
}

#[test]
fn text_reassembles_multibyte_utf8() {
    // 0xC3 0xA9 is the UTF-8 encoding of 'é': the two bytes give one char.
    let bytes = vec![Byte::new(0xC3), Byte::new(0xA9)];
    let text = read_bytes_as_text(bytes);
    assert_eq!(text, "é");
    assert_eq!(text.chars().count(), 1);
}

#[test]
fn invalid_utf8_read_byte_by_byte() {
    // 0xC3 followed by 0x28 is no valid UTF-8 sequence: each byte is read as
    // its own code point instead.
    let bytes = vec![Byte::new(0xC3), Byte::new(0x28)];
    assert_eq!(read_bytes_as_text(bytes), "\u{c3}(");
}

#[test]
fn big_endian_u32_parse() {
    let bytes = vec![Byte::new(0), Byte::new(1), Byte::new(226), Byte::new(64)];
    assert_eq!(read_bytes_as_u32(&bytes[..]), 123456);
}

#[test]
fn hex_dump_format() {
    let bytes = vec![Byte::new(0), Byte::new(15), Byte::new(171), Byte::new(255)];
    assert_eq!(dump_bytes(&bytes), "000fabff");
}

#[test]
fn text_frame_survives_double_encode_carrier_reuse() {
    // Encoding into an already-encoded carrier overwrites the old frame.
    let carrier = zero_grid(16, 16);
    let first = embed_text_in_image(&carrier, "first").unwrap();
    let second = embed_text_in_image(&first, "second!").unwrap();
    match decode_image(&second, false).unwrap() {
        DecodedPayload::Text(t) => assert_eq!(t, "second!"),
        _ => panic!("expected a text payload"),
    }
}

#[test]
fn image_frame_bytes_layout() {
    let g = PixelGrid::new(1, 1, vec![1, 2, 3, 4]).unwrap();
    let frame = EncodedType::RgbaPng(g).to_bytes();
    let mut expected = b"img".to_vec();
    expected.extend_from_slice(&[0, 0, 0, 1, 124, 0, 0, 0, 1, 124]);
    expected.extend_from_slice(&[1, 2, 3, 4]);
    expected.extend_from_slice(b"$t36an0s");
    assert_eq!(raw(&frame), expected);
}

#[test]
fn asymmetric_image_keeps_orientation() {
    let carrier = zero_grid(32, 32);
    let data: Vec<u8> = (0..24).collect();
    let embedded = PixelGrid::new(3, 2, data.clone()).unwrap();
    let encoded = embed_image_in_image(&carrier, embedded).unwrap();
    match decode_image(&encoded, false).unwrap() {
        DecodedPayload::Image(g) => {
            assert_eq!(g.width, 3);
            assert_eq!(g.height, 2);
            assert_eq!(g.data, data);
        }
        _ => panic!("expected an image payload"),
    }
}

#[test]
fn grid_rejects_mismatched_data() {
    assert!(PixelGrid::new(2, 2, vec![0u8; 15]).is_none());
    assert!(PixelGrid::new(2, 2, vec![0u8; 16]).is_some());
}
