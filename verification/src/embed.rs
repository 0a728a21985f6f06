//! The encode direction: expand a frame into bits and write one bit into the
//! least-significant bit of each carrier channel, in raster order, leaving
//! the 7 high bits of every channel untouched.

use vstd::prelude::*;
use crate::bits::{bit_of, bytes_to_bits, lemma_bytes_to_bits_len};
use crate::frame::{EncodedType, txt_header, img_header, dims_block};
use crate::grid::PixelGrid;
use vstd::string::StringExecFns;
use vstd::utf8::encode_utf8;

verus! {

/// Why an operation was refused.
#[derive(PartialEq, Eq, Structural, Clone, Copy, Debug)]
pub enum StegError {
    /// The payload needs more channel bits than the carrier grid provides.
    Capacity,
    /// An image frame's 10-byte dimensions block does not hold exactly two
    /// delimiters, each preceded by a 4-byte integer.
    MalformedDimensions,
    /// An image frame claims dimensions whose channel count exceeds what this
    /// machine can address.
    OversizedDimensions,
}

/// The frame of a text payload.
pub open spec fn text_frame(s: Seq<char>) -> Seq<u8> {
    txt_header() + encode_utf8(s) + crate::bits::terminator_seq()
}

/// The frame of an image payload with the given dimensions and channel bytes.
pub open spec fn image_frame(width: u32, height: u32, data: Seq<u8>) -> Seq<u8> {
    img_header() + dims_block(width, height) + data + crate::bits::terminator_seq()
}

/// The carrier's channel bytes after embedding: channel `i` takes bit `i` of
/// the stream as its new least-significant bit; channels beyond the stream
/// are left byte-for-byte identical.
pub open spec fn embed_bits(carrier: Seq<u8>, bits: Seq<bool>) -> Seq<u8> {
    Seq::new(
        carrier.len(),
        |i: int|
            if i < bits.len() {
                (carrier[i] & 0xFE) | (if bits[i] {
                    1u8
                } else {
                    0u8
                })
            } else {
                carrier[i]
            },
    )
}

/// Overwriting a byte's least-significant bit keeps its 7 high bits and
/// stores exactly the chosen bit.
pub proof fn lemma_embed_byte(c: u8, bit: bool)
    ensures
        ((c & 0xFE) | (if bit {
            1u8
        } else {
            0u8
        })) >> 1 == c >> 1,
        bit_of(
            (c & 0xFE) | (if bit {
                1u8
            } else {
                0u8
            }),
            7,
        ) == bit,
{
    if bit {
        let v: u8 = (c & 0xFE) | 1u8;
        assert(v >> 1 == c >> 1 && (v >> 0u8) & 1 == 1) by (bit_vector)
            requires
                v == (c & 0xFE) | 1u8,
        ;
    } else {
        let v: u8 = (c & 0xFE) | 0u8;
        assert(v >> 1 == c >> 1 && (v >> 0u8) & 1 == 0) by (bit_vector)
            requires
                v == (c & 0xFE) | 0u8,
        ;
    }
}

/// Copies the carrier, overwriting the least-significant bit of each channel
/// with one bit of the stream, in raster order; channels beyond the stream's
/// end are copied unchanged, and no channel's 7 high bits ever change.
pub fn write_bits_to_image(original_image: &PixelGrid, bits: &Vec<bool>) -> (r: PixelGrid)
    requires
        original_image.wf(),
    ensures
        r.wf(),
        r.width == original_image.width,
        r.height == original_image.height,
        r.data@ == embed_bits(original_image.data@, bits@),
        forall|i: int|
            0 <= i < r.data@.len() ==> #[trigger] (r.data@[i] >> 1) == original_image.data@[i]
                >> 1,
        forall|i: int|
            bits@.len() <= i < r.data@.len() ==> #[trigger] r.data@[i]
                == original_image.data@[i],
        forall|i: int|
            0 <= i < r.data@.len() && i < bits@.len() ==> bit_of(#[trigger] r.data@[i], 7)
                == bits@[i],
{
    let n: usize = original_image.data.len();
    let nbits: usize = bits.len();
    let mut data: Vec<u8> = Vec::new();
    let mut i: usize = 0;
    while i < n
        invariant
            i <= n,
            n == original_image.data@.len(),
            nbits == bits@.len(),
            data@ == embed_bits(original_image.data@, bits@).take(i as int),
        decreases n - i,
    {
        let c = original_image.data[i];
        let v: u8 = if i < nbits {
            (c & 0xFE) | (if bits[i] {
                1u8
            } else {
                0u8
            })
        } else {
            c
        };
        data.push(v);
        proof {
            assert(data@ =~= embed_bits(original_image.data@, bits@).take(i + 1));
        }
        i += 1;
    }
    proof {
        assert(data@ =~= embed_bits(original_image.data@, bits@));
        assert forall|j: int| 0 <= j < data@.len() implies #[trigger] (data@[j] >> 1)
            == original_image.data@[j] >> 1 by {
            if j < bits@.len() {
                lemma_embed_byte(original_image.data@[j], bits@[j]);
            }
        }
        assert forall|j: int| 0 <= j < data@.len() && j < bits@.len() implies bit_of(
            #[trigger] data@[j],
            7,
        ) == bits@[j] by {
            lemma_embed_byte(original_image.data@[j], bits@[j]);
        }
    }
    PixelGrid { width: original_image.width, height: original_image.height, data }
}

/// Embeds a text payload: refused up front when the full frame holds more
/// bits than the carrier has channels, otherwise the frame's bits are written
/// into the carrier's channel LSBs.
pub fn embed_text_in_image(original: &PixelGrid, text: &str) -> (r: Result<PixelGrid, StegError>)
    requires
        original.wf(),
    ensures
        match r {
            Ok(g) => {
                &&& 8 * text_frame(text@).len() <= original.data@.len()
                &&& g.wf()
                &&& g.width == original.width
                &&& g.height == original.height
                &&& g.data@ == embed_bits(original.data@, bytes_to_bits(text_frame(text@)))
            },
            Err(e) => {
                &&& e == StegError::Capacity
                &&& 8 * text_frame(text@).len() > original.data@.len()
            },
        },
{
    let nbytes: usize = text.as_bytes().len();
    let channels: usize = original.channel_count();
    if (11 + nbytes as u128) * 8 > channels as u128 {
        return Err(StegError::Capacity);
    }
    let payload = EncodedType::Text(String::from_str(text));
    proof {
        assert(payload.spec_frame() =~= text_frame(text@));
    }
    let frame_bits = payload.to_bits();
    proof {
        lemma_bytes_to_bits_len(text_frame(text@));
    }
    Ok(write_bits_to_image(original, &frame_bits))
}

/// Embeds an image payload: refused up front when the embedded grid's pixel
/// count, at 32 frame bits per pixel, exceeds the carrier's channel count;
/// otherwise the frame's bits are written into the carrier's channel LSBs.
/// The threshold counts only the pixel data, so a frame that fits it
/// scantly may still lose its trailing bytes at the carrier's end.
pub fn embed_image_in_image(original: &PixelGrid, image_to_embed: PixelGrid) -> (r: Result<
    PixelGrid,
    StegError,
>)
    requires
        original.wf(),
        image_to_embed.wf(),
    ensures
        match r {
            Ok(g) => {
                &&& image_to_embed.width as int * image_to_embed.height as int * 32
                    <= original.width as int * original.height as int * 4
                &&& g.wf()
                &&& g.width == original.width
                &&& g.height == original.height
                &&& g.data@ == embed_bits(
                    original.data@,
                    bytes_to_bits(
                        image_frame(
                            image_to_embed.width,
                            image_to_embed.height,
                            image_to_embed.data@,
                        ),
                    ),
                )
            },
            Err(e) => {
                &&& e == StegError::Capacity
                &&& image_to_embed.width as int * image_to_embed.height as int * 32
                    > original.width as int * original.height as int * 4
            },
        },
{
    proof {
        assert((image_to_embed.width as u128) * (image_to_embed.height as u128)
            < 0x10000000000000000u128) by (nonlinear_arith)
            requires
                (image_to_embed.width as u128) < 0x100000000u128,
                (image_to_embed.height as u128) < 0x100000000u128,
        ;
        assert((original.width as u128) * (original.height as u128) < 0x10000000000000000u128)
            by (nonlinear_arith)
            requires
                (original.width as u128) < 0x100000000u128,
                (original.height as u128) < 0x100000000u128,
        ;
    }
    let embed_pixels: u128 = (image_to_embed.width as u128) * (image_to_embed.height as u128);
    let carrier_pixels: u128 = (original.width as u128) * (original.height as u128);
    if embed_pixels * 32 > carrier_pixels * 4 {
        return Err(StegError::Capacity);
    }
    let ghost w = image_to_embed.width;
    let ghost h = image_to_embed.height;
    let ghost d = image_to_embed.data@;
    let payload = EncodedType::RgbaPng(image_to_embed);
    proof {
        assert(payload.spec_frame() =~= image_frame(w, h, d));
    }
    let frame_bits = payload.to_bits();
    Ok(write_bits_to_image(original, &frame_bits))
}

} // verus!
