//! Frame serialization: a payload becomes a self-describing byte stream —
//! a fixed-width header tag, the dimensions block for an image payload, the
//! body bytes, and the closing terminator sentinel.

use vstd::prelude::*;
use crate::bits::{Byte, be32, bytes_of, bytes_to_bits, byte_to_bits, terminator_seq};
use crate::grid::PixelGrid;
use vstd::utf8::encode_utf8;

verus! {

/// Header tag bytes for a text payload: `"txt"`.
pub open spec fn txt_header() -> Seq<u8> {
    seq![116u8, 120u8, 116u8]
}

/// Header tag bytes for an image payload: `"img"`.
pub open spec fn img_header() -> Seq<u8> {
    seq![105u8, 109u8, 103u8]
}

/// The 10-byte dimensions block of an image payload: width and height as
/// 4-byte big-endian integers, each followed by the `'|'` delimiter byte.
pub open spec fn dims_block(width: u32, height: u32) -> Seq<u8> {
    be32(width) + seq![124u8] + be32(height) + seq![124u8]
}

/// A payload to hide in a carrier: plain text, or an RGBA pixel grid.
pub enum EncodedType {
    Text(String),
    RgbaPng(PixelGrid),
}

impl EncodedType {
    pub open spec fn wf(&self) -> bool {
        match self {
            EncodedType::Text(_) => true,
            EncodedType::RgbaPng(g) => g.wf(),
        }
    }

    /// The header tag of this payload's variant.
    pub open spec fn spec_header(&self) -> Seq<u8> {
        match self {
            EncodedType::Text(_) => txt_header(),
            EncodedType::RgbaPng(_) => img_header(),
        }
    }

    /// The metadata between header and body: the dimensions block for an
    /// image payload, nothing for text.
    pub open spec fn spec_meta(&self) -> Seq<u8> {
        match self {
            EncodedType::Text(_) => Seq::empty(),
            EncodedType::RgbaPng(g) => dims_block(g.width, g.height),
        }
    }

    /// The body bytes: the UTF-8 encoding of the text, or the raw channel
    /// bytes of the embedded grid in raster order.
    pub open spec fn spec_body(&self) -> Seq<u8> {
        match self {
            EncodedType::Text(s) => encode_utf8(s@),
            EncodedType::RgbaPng(g) => g.data@,
        }
    }

    /// The full frame: header, metadata, body, terminator.
    pub open spec fn spec_frame(&self) -> Seq<u8> {
        self.spec_header() + self.spec_meta() + self.spec_body() + terminator_seq()
    }

    /// The header tag of this payload's variant, as text.
    fn header(&self) -> (r: &str)
        ensures
            match self {
                EncodedType::Text(_) => r@ == "txt"@,
                EncodedType::RgbaPng(_) => r@ == "img"@,
            },
    {
        match *self {
            EncodedType::Text(_) => "txt",
            EncodedType::RgbaPng(_) => "img",
        }
    }

    /// The header tag as a byte buffer.
    fn byte_header(&self) -> (r: Vec<Byte>)
        ensures
            bytes_of(r@) == self.spec_header(),
    {
        let r = Byte::from_str(self.header());
        proof {
            reveal_strlit("txt");
            reveal_strlit("img");
            assert(bytes_of(r@) =~= self.spec_header());
        }
        r
    }

    /// Serializes the payload into its full frame byte sequence.
    pub fn to_bytes(&self) -> (r: Vec<Byte>)
        requires
            self.wf(),
        ensures
            bytes_of(r@) == self.spec_frame(),
    {
        let mut bytes = self.byte_header();
        match self {
            EncodedType::Text(s) => {
                let bs: &[u8] = s.as_str().as_bytes();
                let n: usize = bs.len();
                let mut i: usize = 0;
                while i < n
                    invariant
                        n == bs@.len(),
                        i <= n,
                        bytes_of(bytes@) == self.spec_header() + bs@.take(i as int),
                    decreases n - i,
                {
                    let ghost pre = bytes@;
                    let b = Byte::new(bs[i]);
                    bytes.push(b);
                    proof {
                        crate::bits::lemma_bytes_of_push(pre, b);
                        assert(bs@.take(i + 1) =~= bs@.take(i as int).push(bs@[i as int]));
                        assert(bytes_of(bytes@) =~= self.spec_header() + bs@.take(i + 1));
                    }
                    i += 1;
                }
                proof {
                    assert(bs@.take(n as int) =~= bs@);
                }
            },
            EncodedType::RgbaPng(image) => {
                let mut dims: Vec<Byte> = Vec::new();
                let mut w = Byte::from_u32(image.width);
                dims.append(&mut w);
                dims.push(Byte::from_char('|'));
                let mut h = Byte::from_u32(image.height);
                dims.append(&mut h);
                dims.push(Byte::from_char('|'));
                proof {
                    assert(bytes_of(dims@) =~= dims_block(image.width, image.height));
                }
                bytes.append(&mut dims);
                proof {
                    assert(bytes_of(bytes@) =~= self.spec_header() + self.spec_meta());
                }
                let n: usize = image.data.len();
                let mut i: usize = 0;
                while i < n
                    invariant
                        n == image.data@.len(),
                        i <= n,
                        bytes_of(bytes@) == self.spec_header() + self.spec_meta()
                            + image.data@.take(i as int),
                    decreases n - i,
                {
                    let ghost pre = bytes@;
                    let b = Byte::new(image.data[i]);
                    bytes.push(b);
                    proof {
                        crate::bits::lemma_bytes_of_push(pre, b);
                        assert(image.data@.take(i + 1) =~= image.data@.take(i as int).push(
                            image.data@[i as int],
                        ));
                        assert(bytes_of(bytes@) =~= self.spec_header() + self.spec_meta()
                            + image.data@.take(i + 1));
                    }
                    i += 1;
                }
                proof {
                    assert(image.data@.take(n as int) =~= image.data@);
                }
            },
        }
        let mut tail = Byte::ending_seq();
        bytes.append(&mut tail);
        proof {
            assert(bytes_of(bytes@) =~= self.spec_frame());
        }
        bytes
    }

    /// Expands the frame into its bit sequence, one byte giving 8 bits,
    /// most-significant-bit first.
    pub fn to_bits(&self) -> (r: Vec<bool>)
        requires
            self.wf(),
        ensures
            r@ == bytes_to_bits(self.spec_frame()),
    {
        let bytes = self.to_bytes();
        let mut bits: Vec<bool> = Vec::new();
        let n: usize = bytes.len();
        let mut i: usize = 0;
        while i < n
            invariant
                n == bytes@.len(),
                i <= n,
                bytes_of(bytes@) == self.spec_frame(),
                bits@ == bytes_to_bits(bytes_of(bytes@).take(i as int)),
            decreases n - i,
        {
            let mut bb = bytes[i].get_bits();
            proof {
                let pre = bytes_of(bytes@).take(i as int);
                let cur = bytes_of(bytes@).take(i + 1);
                assert(cur.drop_last() =~= pre);
                assert(cur.last() == bytes@[i as int].byte);
                assert(bytes_to_bits(cur) == bytes_to_bits(pre) + byte_to_bits(
                    bytes@[i as int].byte,
                ));
            }
            bits.append(&mut bb);
            i += 1;
        }
        proof {
            assert(bytes_of(bytes@).take(n as int) =~= bytes_of(bytes@));
        }
        bits
    }

    /// The fixed byte length shared by every header tag.
    pub fn header_size() -> (r: usize)
        ensures
            r == 3,
    {
        3
    }
}

/// Both header tags have the same fixed length, the one `header_size`
/// reports: the parser may always split a frame at that boundary.
pub proof fn lemma_header_tags_equal_length()
    ensures
        txt_header().len() == 3,
        img_header().len() == 3,
{
}

} // verus!
