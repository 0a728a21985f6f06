//! Round-trip laws: what the decoder's scan recovers from a carrier the
//! encoder wrote, stated over the specification functions that the encode
//! and decode contracts use.

use vstd::prelude::*;
use crate::bits::{
    bit_of, bytes_to_bits, byte_to_bits, be32, be32_val, terminator_seq, lemma_bytes_to_bits_len,
    lemma_bytes_to_bits_index, lemma_bits_val_byte, lemma_be32_round_trip,
};
use crate::embed::{embed_bits, lemma_embed_byte, text_frame, image_frame};
use crate::extract::{
    lsb_bits, scanned_byte, scanned_bytes, ends_with_term, scan_end, term_found, scanned_payload,
    text_of, nonzero_bytes, dims_parse_ok, pixel_bytes_used, lemma_scan_end_unique,
};
use crate::frame::{txt_header, img_header, dims_block};
use vstd::utf8::{
    encode_utf8, encode_scalar, has_width_1_encoding, char_u32_cast, encode_utf8_valid_utf8,
    encode_utf8_decode_utf8,
};

verus! {

/// Embedding a frame's bits and scanning them back is the identity on the
/// frame: when the carrier has a channel for every frame bit, the first
/// bytes the scanner can recover from the embedded carrier are exactly the
/// frame's bytes.
pub proof fn lemma_embed_scan(carrier: Seq<u8>, frame: Seq<u8>)
    requires
        8 * frame.len() <= carrier.len(),
    ensures
        scanned_bytes(embed_bits(carrier, bytes_to_bits(frame))).len() == carrier.len() / 8,
        frame.len() <= carrier.len() / 8,
        scanned_bytes(embed_bits(carrier, bytes_to_bits(frame))).take(frame.len() as int)
            == frame,
{
    let bits = bytes_to_bits(frame);
    lemma_bytes_to_bits_len(frame);
    let emb = embed_bits(carrier, bits);
    let full = scanned_bytes(emb);
    assert(carrier.len() == 8 * (carrier.len() / 8) + carrier.len() % 8);
    assert forall|j: int| 0 <= j < frame.len() implies full[j] == frame[j] by {
        assert(lsb_bits(emb).subrange(8 * j, 8 * j + 8) =~= byte_to_bits(frame[j])) by {
            assert forall|k: int| 0 <= k < 8 implies lsb_bits(emb)[8 * j + k] == bit_of(
                frame[j],
                k,
            ) by {
                let i = 8 * j + k;
                lemma_embed_byte(carrier[i], bits[i]);
                lemma_bytes_to_bits_index(frame, j, k);
            }
        }
        lemma_bits_val_byte(frame[j]);
        assert(full[j] == scanned_byte(emb, j));
    }
    assert(full.take(frame.len() as int) =~= frame);
}

/// A frame closed by the terminator matches the terminator at its end and
/// nowhere earlier, provided the bytes before the terminator nowhere hold
/// the full terminator sequence. No 8-byte window straddling the boundary
/// can match either, because no terminator byte repeats.
proof fn lemma_ends_with_term_take(s: Seq<u8>, k: int)
    requires
        8 <= k <= s.len(),
    ensures
        ends_with_term(s.take(k)) <==> s.subrange(k - 8, k) == terminator_seq(),
{
    assert(s.take(k).subrange(k - 8, k) =~= s.subrange(k - 8, k));
}

proof fn lemma_window_differs(pre: Seq<u8>, k: int)
    requires
        8 <= k < (pre + terminator_seq()).len(),
        forall|p: int|
            0 <= p && p + 8 <= pre.len() ==> #[trigger] pre.subrange(p, p + 8)
                != terminator_seq(),
    ensures
        (pre + terminator_seq()).subrange(k - 8, k) != terminator_seq(),
{
    let frame = pre + terminator_seq();
    if k <= pre.len() {
        assert(pre.subrange(k - 8, (k - 8) + 8) != terminator_seq());
        assert(frame.subrange(k - 8, k) =~= pre.subrange(k - 8, k));
    } else {
        let m = k - pre.len();
        if frame.subrange(k - 8, k) == terminator_seq() {
            assert(frame.subrange(k - 8, k)[8 - m] == frame[pre.len() as int]);
            assert(frame[pre.len() as int] == terminator_seq()[0]);
            assert(terminator_seq()[0] == 36);
            assert(terminator_seq()[1] != 36 && terminator_seq()[2] != 36 && terminator_seq()[3]
                != 36 && terminator_seq()[4] != 36 && terminator_seq()[5] != 36
                && terminator_seq()[6] != 36 && terminator_seq()[7] != 36);
            assert(false);
        }
    }
}

pub proof fn lemma_frame_no_early_term(pre: Seq<u8>)
    requires
        forall|p: int|
            0 <= p && p + 8 <= pre.len() ==> #[trigger] pre.subrange(p, p + 8)
                != terminator_seq(),
    ensures
        ends_with_term(pre + terminator_seq()),
        forall|k: int|
            0 <= k < (pre + terminator_seq()).len() ==> !ends_with_term(
                #[trigger] (pre + terminator_seq()).take(k),
            ),
{
    let frame = pre + terminator_seq();
    assert(frame.subrange(frame.len() - 8, frame.len() as int) =~= terminator_seq());
    assert forall|k: int| 0 <= k < frame.len() implies !ends_with_term(
        #[trigger] frame.take(k),
    ) by {
        if k >= 8 {
            lemma_ends_with_term_take(frame, k);
            lemma_window_differs(pre, k);
        }
    }
}

/// Scanning halts exactly where the terminator first appears: a byte stream
/// holding the terminator at offset `kk`, and nowhere earlier, has exactly
/// `kk + 8` of its bytes consumed, whatever follows, and the bytes before
/// the terminator are the recovered payload.
pub proof fn lemma_terminator_detection(full: Seq<u8>, kk: int)
    requires
        0 <= kk,
        kk + 8 <= full.len(),
        full.subrange(kk, kk + 8) == terminator_seq(),
        forall|k: int| 8 <= k < kk + 8 ==> #[trigger] full.subrange(k - 8, k) != terminator_seq(),
    ensures
        scan_end(full) == kk + 8,
        term_found(full),
        scanned_payload(full) == full.take(kk),
{
    assert(full.take(kk + 8).subrange(kk, kk + 8) =~= full.subrange(kk, kk + 8));
    assert(ends_with_term(full.take(kk + 8)));
    assert forall|k: int| 0 <= k < kk + 8 implies !ends_with_term(#[trigger] full.take(k)) by {
        if k >= 8 {
            assert(full.take(k).subrange(k - 8, k) =~= full.subrange(k - 8, k));
        }
    }
    lemma_scan_end_unique(full, kk + 8);
    assert(full.take(kk + 8).subrange(0, kk) =~= full.take(kk));
}

proof fn lemma_encode_scalar_nonzero(u: u32)
    requires
        u != 0,
    ensures
        forall|i: int| 0 <= i < encode_scalar(u).len() ==> encode_scalar(u)[i] != 0,
{
    if has_width_1_encoding(u) {
        assert(((u & 0x7F) as u8) != 0) by (bit_vector)
            requires
                u != 0 && u <= 0x7F,
        ;
    }
    assert((0xC0u8 | (((u >> 6) & 0x1F) as u8)) != 0) by (bit_vector);
    assert((0xE0u8 | (((u >> 12) & 0x0F) as u8)) != 0) by (bit_vector);
    assert((0xF0u8 | (((u >> 18) & 0x7) as u8)) != 0) by (bit_vector);
    assert((0x80u8 | ((u & 0x3F) as u8)) != 0) by (bit_vector);
    assert((0x80u8 | (((u >> 6) & 0x3F) as u8)) != 0) by (bit_vector);
    assert((0x80u8 | (((u >> 12) & 0x3F) as u8)) != 0) by (bit_vector);
}

proof fn lemma_encode_utf8_nonzero(s: Seq<char>)
    requires
        forall|i: int| 0 <= i < s.len() ==> #[trigger] s[i] != '\0',
    ensures
        forall|j: int| 0 <= j < encode_utf8(s).len() ==> #[trigger] encode_utf8(s)[j] != 0,
    decreases s.len(),
{
    if s.len() > 0 {
        let u = s[0] as u32;
        char_u32_cast(s[0], u);
        assert(('\0' as u32) == 0);
        if u == 0 {
            char_u32_cast('\0', 0);
            assert(false);
        }
        lemma_encode_scalar_nonzero(u);
        lemma_encode_utf8_nonzero(s.drop_first());
        assert(encode_utf8(s) == encode_scalar(u) + encode_utf8(s.drop_first()));
    }
}

proof fn lemma_nonzero_bytes_id(bs: Seq<u8>)
    requires
        forall|i: int| 0 <= i < bs.len() ==> #[trigger] bs[i] != 0,
    ensures
        nonzero_bytes(bs) == bs,
    decreases bs.len(),
{
    if bs.len() > 0 {
        lemma_nonzero_bytes_id(bs.drop_last());
    }
    assert(nonzero_bytes(bs) =~= bs);
}

/// The text round trip: a text payload without null characters, whose UTF-8
/// bytes nowhere hold the terminator sequence, embedded into a carrier with
/// a channel for every frame bit, is recovered exactly — the scan finds the
/// terminator, the recovered bytes begin with the text header, and the body
/// read back as text is the original character sequence.
pub proof fn lemma_text_round_trip(s: Seq<char>, carrier: Seq<u8>)
    requires
        forall|i: int| 0 <= i < s.len() ==> #[trigger] s[i] != '\0',
        forall|p: int|
            0 <= p && p + 8 <= encode_utf8(s).len() ==> #[trigger] encode_utf8(s).subrange(
                p,
                p + 8,
            ) != terminator_seq(),
        8 * text_frame(s).len() <= carrier.len(),
    ensures
        ({
            let full = scanned_bytes(embed_bits(carrier, bytes_to_bits(text_frame(s))));
            &&& term_found(full)
            &&& scanned_payload(full) == txt_header() + encode_utf8(s)
            &&& scanned_payload(full).take(3) == txt_header()
            &&& text_of(scanned_payload(full).skip(3)) == s
        }),
{
    let body = encode_utf8(s);
    let pre = txt_header() + body;
    let frame = text_frame(s);
    assert(frame =~= pre + terminator_seq());
    assert forall|p: int| 0 <= p && p + 8 <= pre.len() implies #[trigger] pre.subrange(p, p + 8)
        != terminator_seq() by {
        if p < 3 {
            if pre.subrange(p, p + 8) == terminator_seq() {
                assert(pre.subrange(p, p + 8)[0] == pre[p]);
                assert(terminator_seq()[0] == 36);
                assert(txt_header()[0] == 116 && txt_header()[1] == 120 && txt_header()[2]
                    == 116);
                assert(false);
            }
        } else {
            assert(body.subrange(p - 3, (p - 3) + 8) != terminator_seq());
            assert(pre.subrange(p, p + 8) =~= body.subrange(p - 3, p + 5));
        }
    }
    lemma_frame_no_early_term(pre);
    lemma_embed_scan(carrier, frame);
    let full = scanned_bytes(embed_bits(carrier, bytes_to_bits(frame)));
    assert forall|k: int| 0 <= k < frame.len() implies !ends_with_term(
        #[trigger] full.take(k),
    ) by {
        assert(full.take(k) =~= full.take(frame.len() as int).take(k));
        assert(frame.take(k) == (pre + terminator_seq()).take(k));
    }
    assert(full.take(frame.len() as int) == frame);
    assert(ends_with_term(full.take(frame.len() as int)));
    lemma_scan_end_unique(full, frame.len() as int);
    assert(scanned_payload(full) =~= pre);
    assert(pre.take(3) =~= txt_header());
    assert(pre.skip(3) =~= body);
    lemma_encode_utf8_nonzero(s);
    lemma_nonzero_bytes_id(body);
    encode_utf8_valid_utf8(s);
    encode_utf8_decode_utf8(s);
    assert(text_of(body) == s);
}

/// The image round trip: an image payload whose channel bytes nowhere hold
/// the terminator sequence, and whose dimension bytes nowhere hold the
/// delimiter byte, embedded into a carrier with a channel for every frame
/// bit, is recovered exactly — the scan finds the terminator, the recovered
/// bytes begin with the image header, the dimensions block parses back to
/// the original width and height, and the body bytes after it are the
/// original channel bytes, all of them counted as complete pixel windows.
pub proof fn lemma_image_round_trip(width: u32, height: u32, data: Seq<u8>, carrier: Seq<u8>)
    requires
        data.len() == width as int * height as int * 4,
        forall|p: int|
            0 <= p && p + 8 <= data.len() ==> #[trigger] data.subrange(p, p + 8)
                != terminator_seq(),
        forall|i: int| 0 <= i < 4 ==> #[trigger] be32(width)[i] != 124,
        forall|i: int| 0 <= i < 4 ==> #[trigger] be32(height)[i] != 124,
        8 * image_frame(width, height, data).len() <= carrier.len(),
    ensures
        ({
            let full = scanned_bytes(
                embed_bits(carrier, bytes_to_bits(image_frame(width, height, data))),
            );
            let pay = scanned_payload(full);
            let body = pay.skip(3);
            &&& term_found(full)
            &&& pay == img_header() + dims_block(width, height) + data
            &&& pay.take(3) == img_header()
            &&& dims_parse_ok(body)
            &&& be32_val(body.subrange(0, 4)) == width
            &&& be32_val(body.subrange(5, 9)) == height
            &&& pixel_bytes_used(body, width, height) == data.len()
            &&& body.skip(10) == data
        }),
{
    let dims = dims_block(width, height);
    let pre = img_header() + dims + data;
    let frame = image_frame(width, height, data);
    assert(frame =~= pre + terminator_seq());
    assert(dims.len() == 10);
    assert(dims[4] == 124 && dims[9] == 124);
    assert(forall|i: int| 0 <= i < 4 ==> #[trigger] dims[i] == be32(width)[i]);
    assert(forall|i: int| 5 <= i < 9 ==> #[trigger] dims[i] == be32(height)[i - 5]);
    assert(pre[7] == 124 && pre[12] == 124);
    assert forall|p: int| 0 <= p && p + 8 <= pre.len() implies #[trigger] pre.subrange(p, p + 8)
        != terminator_seq() by {
        let w = pre.subrange(p, p + 8);
        if w == terminator_seq() {
            assert(terminator_seq()[0] == 36);
            assert(terminator_seq()[1] != 124 && terminator_seq()[2] != 124 && terminator_seq()[3]
                != 124 && terminator_seq()[4] != 124 && terminator_seq()[5] != 124
                && terminator_seq()[6] != 124 && terminator_seq()[7] != 124
                && terminator_seq()[0] != 124);
            if p < 3 {
                assert(w[0] == pre[p]);
                assert(pre[0] == 105 && pre[1] == 109 && pre[2] == 103);
                assert(false);
            } else if p < 8 {
                assert(w[7 - p] == pre[7]);
                assert(false);
            } else if p < 13 {
                assert(w[12 - p] == pre[12]);
                assert(false);
            } else {
                assert(data.subrange(p - 13, (p - 13) + 8) != terminator_seq());
                assert(w =~= data.subrange(p - 13, p - 5));
                assert(false);
            }
        }
    }
    lemma_frame_no_early_term(pre);
    lemma_embed_scan(carrier, frame);
    let full = scanned_bytes(embed_bits(carrier, bytes_to_bits(frame)));
    assert forall|k: int| 0 <= k < frame.len() implies !ends_with_term(
        #[trigger] full.take(k),
    ) by {
        assert(full.take(k) =~= full.take(frame.len() as int).take(k));
        assert(frame.take(k) == (pre + terminator_seq()).take(k));
    }
    assert(full.take(frame.len() as int) == frame);
    assert(ends_with_term(full.take(frame.len() as int)));
    lemma_scan_end_unique(full, frame.len() as int);
    let pay = scanned_payload(full);
    assert(pay =~= pre);
    assert(pay.take(3) =~= img_header());
    let body = pay.skip(3);
    assert(body =~= dims + data);
    assert(dims_parse_ok(body));
    assert(body.subrange(0, 4) =~= be32(width));
    assert(body.subrange(5, 9) =~= be32(height));
    lemma_be32_round_trip(width);
    lemma_be32_round_trip(height);
    assert(body.skip(10) =~= data);
    assert(pixel_bytes_used(body, width, height) == data.len()) by {
        let x = width as int * height as int;
        assert(body.len() - 10 == 4 * x);
        assert((4 * x) / 4 == x);
    }
}

} // verus!
