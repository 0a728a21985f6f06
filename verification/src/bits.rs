//! Byte and bit primitives: a byte is expanded into its 8 bits
//! most-significant-bit first, and a run of at most 8 bits is folded back
//! into a byte. These are the units the embedder and the scanner work in.

use vstd::prelude::*;
use vstd::arithmetic::power2::{pow2, lemma_pow2_strictly_increases, lemma2_to64};
use vstd::string::StrSliceExecFns;

verus! {

/// Bit `i` of byte `b`, counting from the most significant bit:
/// `bit_of(b, 0)` is the top bit, `bit_of(b, 7)` is the least significant bit.
pub open spec fn bit_of(b: u8, i: int) -> bool {
    (b >> ((7 - i) as u8)) & 1 == 1
}

/// The 8 bits of a byte, most-significant-bit first.
pub open spec fn byte_to_bits(b: u8) -> Seq<bool> {
    Seq::new(8, |i: int| bit_of(b, i))
}

/// The value of a bit sequence read as a binary number, first bit most
/// significant.
pub open spec fn bits_val(bits: Seq<bool>) -> nat
    decreases bits.len(),
{
    if bits.len() == 0 {
        0
    } else {
        2 * bits_val(bits.drop_last()) + (if bits.last() {
            1nat
        } else {
            0nat
        })
    }
}

/// The bit expansion of a byte sequence: every byte contributes its 8 bits,
/// most-significant-bit first, in byte order.
pub open spec fn bytes_to_bits(bs: Seq<u8>) -> Seq<bool>
    decreases bs.len(),
{
    if bs.len() == 0 {
        Seq::empty()
    } else {
        bytes_to_bits(bs.drop_last()) + byte_to_bits(bs.last())
    }
}

/// The bytes held by a sequence of `Byte` wrappers.
pub open spec fn bytes_of(s: Seq<Byte>) -> Seq<u8> {
    s.map_values(|b: Byte| b.byte)
}

/// The fixed 8-byte sentinel `"$t36an0s"` that closes every frame.
pub open spec fn terminator_seq() -> Seq<u8> {
    seq![36u8, 116u8, 51u8, 54u8, 97u8, 110u8, 48u8, 115u8]
}

/// Wrapping one more byte extends the byte view by that byte.
pub proof fn lemma_bytes_of_push(s: Seq<Byte>, b: Byte)
    ensures
        bytes_of(s.push(b)) == bytes_of(s).push(b.byte),
{
    assert(bytes_of(s.push(b)) =~= bytes_of(s).push(b.byte));
}

pub proof fn lemma_bits_val_lt_pow2(bits: Seq<bool>)
    ensures
        bits_val(bits) < pow2(bits.len() as nat),
    decreases bits.len(),
{
    if bits.len() == 0 {
        lemma2_to64();
    } else {
        lemma_bits_val_lt_pow2(bits.drop_last());
        assert(pow2(bits.len() as nat) == 2 * pow2((bits.len() - 1) as nat)) by {
            vstd::arithmetic::power2::lemma_pow2_unfold(bits.len() as nat);
        }
    }
}

/// A sequence of at most 8 bits always has a value below 256.
pub proof fn lemma_bits_val_bound(bits: Seq<bool>)
    requires
        bits.len() <= 8,
    ensures
        bits_val(bits) < 256,
{
    lemma_bits_val_lt_pow2(bits);
    lemma2_to64();
    if bits.len() < 8 {
        lemma_pow2_strictly_increases(bits.len() as nat, 8);
    }
}

/// Folding the bit expansion of a byte gives the byte back: the bit order
/// chosen by `byte_to_bits` is inverted exactly by `bits_val`.
pub proof fn lemma_bits_val_byte(b: u8)
    ensures
        bits_val(byte_to_bits(b)) == b,
{
    let s = byte_to_bits(b);
    let c0: u8 = (b >> 7) & 1;
    let c1: u8 = (b >> 6) & 1;
    let c2: u8 = (b >> 5) & 1;
    let c3: u8 = (b >> 4) & 1;
    let c4: u8 = (b >> 3) & 1;
    let c5: u8 = (b >> 2) & 1;
    let c6: u8 = (b >> 1) & 1;
    let c7: u8 = (b >> 0) & 1;
    assert(c0 <= 1 && c1 <= 1 && c2 <= 1 && c3 <= 1 && c4 <= 1 && c5 <= 1 && c6 <= 1 && c7 <= 1)
        by (bit_vector)
        requires
            c0 == (b >> 7) & 1,
            c1 == (b >> 6) & 1,
            c2 == (b >> 5) & 1,
            c3 == (b >> 4) & 1,
            c4 == (b >> 3) & 1,
            c5 == (b >> 2) & 1,
            c6 == (b >> 1) & 1,
            c7 == (b >> 0) & 1,
    ;
    assert(bits_val(s.take(0)) == 0);
    assert(s.take(1).drop_last() =~= s.take(0));
    assert(bits_val(s.take(1)) == 2 * bits_val(s.take(0)) + (if s[0] { 1nat } else { 0nat }));
    assert(s.take(2).drop_last() =~= s.take(1));
    assert(bits_val(s.take(2)) == 2 * bits_val(s.take(1)) + (if s[1] { 1nat } else { 0nat }));
    assert(s.take(3).drop_last() =~= s.take(2));
    assert(bits_val(s.take(3)) == 2 * bits_val(s.take(2)) + (if s[2] { 1nat } else { 0nat }));
    assert(s.take(4).drop_last() =~= s.take(3));
    assert(bits_val(s.take(4)) == 2 * bits_val(s.take(3)) + (if s[3] { 1nat } else { 0nat }));
    assert(s.take(5).drop_last() =~= s.take(4));
    assert(bits_val(s.take(5)) == 2 * bits_val(s.take(4)) + (if s[4] { 1nat } else { 0nat }));
    assert(s.take(6).drop_last() =~= s.take(5));
    assert(bits_val(s.take(6)) == 2 * bits_val(s.take(5)) + (if s[5] { 1nat } else { 0nat }));
    assert(s.take(7).drop_last() =~= s.take(6));
    assert(bits_val(s.take(7)) == 2 * bits_val(s.take(6)) + (if s[6] { 1nat } else { 0nat }));
    assert(s.take(8).drop_last() =~= s.take(7));
    assert(bits_val(s.take(8)) == 2 * bits_val(s.take(7)) + (if s[7] { 1nat } else { 0nat }));
    assert(s.take(8) =~= s);
    assert((if s[0] { 1nat } else { 0nat }) == c0 as nat);
    assert((if s[1] { 1nat } else { 0nat }) == c1 as nat);
    assert((if s[2] { 1nat } else { 0nat }) == c2 as nat);
    assert((if s[3] { 1nat } else { 0nat }) == c3 as nat);
    assert((if s[4] { 1nat } else { 0nat }) == c4 as nat);
    assert((if s[5] { 1nat } else { 0nat }) == c5 as nat);
    assert((if s[6] { 1nat } else { 0nat }) == c6 as nat);
    assert((if s[7] { 1nat } else { 0nat }) == c7 as nat);
    assert(c0 * 128 + c1 * 64 + c2 * 32 + c3 * 16 + c4 * 8 + c5 * 4 + c6 * 2 + c7 == b)
        by (bit_vector)
        requires
            c0 == (b >> 7) & 1,
            c1 == (b >> 6) & 1,
            c2 == (b >> 5) & 1,
            c3 == (b >> 4) & 1,
            c4 == (b >> 3) & 1,
            c5 == (b >> 2) & 1,
            c6 == (b >> 1) & 1,
            c7 == (b >> 0) & 1,
    ;
}

pub proof fn lemma_bytes_to_bits_len(bs: Seq<u8>)
    ensures
        bytes_to_bits(bs).len() == 8 * bs.len(),
    decreases bs.len(),
{
    if bs.len() > 0 {
        lemma_bytes_to_bits_len(bs.drop_last());
    }
}

/// Bit `8*j + k` of a byte sequence's expansion is bit `k` of byte `j`.
pub proof fn lemma_bytes_to_bits_index(bs: Seq<u8>, j: int, k: int)
    requires
        0 <= j < bs.len(),
        0 <= k < 8,
    ensures
        bytes_to_bits(bs)[8 * j + k] == bit_of(bs[j], k),
    decreases bs.len(),
{
    lemma_bytes_to_bits_len(bs.drop_last());
    if j == bs.len() - 1 {
        assert(bytes_to_bits(bs)[8 * j + k] == byte_to_bits(bs.last())[k]);
    } else {
        lemma_bytes_to_bits_index(bs.drop_last(), j, k);
    }
}

/// Extracts the least-significant bit of a byte.
pub fn get_lsb(byte: u8) -> (r: bool)
    ensures
        r == bit_of(byte, 7),
{
    proof {
        assert(((byte >> 0u8) & 1 == 1) == (byte & 1 != 0)) by (bit_vector);
    }
    byte & 1 != 0
}

/// A single byte of a frame, wrapped so that frame buffers carry their own
/// type.
#[derive(PartialEq, Eq, Structural, Clone, Copy, Debug)]
pub struct Byte {
    pub byte: u8,
}

impl Byte {
    pub fn new(byte: u8) -> (r: Self)
        ensures
            r.byte == byte,
    {
        Self { byte }
    }

    pub fn zero() -> (r: Self)
        ensures
            r.byte == 0,
    {
        Self { byte: 0 }
    }

    /// The four bytes of a 32-bit integer, big-endian.
    pub fn from_u32(num: u32) -> (r: Vec<Byte>)
        ensures
            bytes_of(r@) == crate::bits::be32(num),
    {
        let mut r: Vec<Byte> = Vec::new();
        r.push(Byte { byte: (num >> 24) as u8 });
        r.push(Byte { byte: (num >> 16) as u8 });
        r.push(Byte { byte: (num >> 8) as u8 });
        r.push(Byte { byte: num as u8 });
        proof {
            assert(bytes_of(r@) =~= be32(num));
        }
        r
    }

    /// One byte per character: each character is truncated to its low 8 bits,
    /// which is the identity on ASCII text.
    pub fn from_str(s: &str) -> (r: Vec<Byte>)
        ensures
            r@.len() == s@.len(),
            forall|i: int| 0 <= i < s@.len() ==> bytes_of(r@)[i] == s@[i] as u8,
    {
        let mut r: Vec<Byte> = Vec::new();
        let n = s.unicode_len();
        let mut i: usize = 0;
        while i < n
            invariant
                n == s@.len(),
                i <= n,
                r@.len() == i,
                forall|j: int| 0 <= j < i ==> r@[j].byte == s@[j] as u8,
            decreases n - i,
        {
            let c = s.get_char(i);
            r.push(Byte::from_char(c));
            i += 1;
        }
        proof {
            assert forall|j: int| 0 <= j < s@.len() implies bytes_of(r@)[j] == s@[j] as u8 by {
                assert(bytes_of(r@)[j] == r@[j].byte);
            }
        }
        r
    }

    /// The terminator sentinel as a byte buffer.
    pub fn ending_seq() -> (r: Vec<Byte>)
        ensures
            bytes_of(r@) == terminator_seq(),
    {
        let r = Byte::from_str("$t36an0s");
        proof {
            reveal_strlit("$t36an0s");
            assert(bytes_of(r@) =~= terminator_seq());
        }
        r
    }

    /// A character truncated to its low 8 bits.
    pub fn from_char(c: char) -> (r: Self)
        ensures
            r.byte == c as u8,
    {
        Self { byte: c as u8 }
    }

    /// A byte folded from at most 8 bits, first bit most significant.
    pub fn from_bits(arr: &[bool]) -> (r: Self)
        requires
            arr@.len() <= 8,
        ensures
            r.byte == bits_val(arr@),
    {
        let mut acc: u8 = 0;
        let n = arr.len();
        let mut i: usize = 0;
        while i < n
            invariant
                i <= n,
                n == arr@.len(),
                n <= 8,
                acc as nat == bits_val(arr@.take(i as int)),
            decreases n - i,
        {
            proof {
                lemma_bits_val_lt_pow2(arr@.take(i as int));
                lemma2_to64();
                if (i as int) < 7 {
                    lemma_pow2_strictly_increases(i as nat, 7);
                }
                assert(arr@.take(i + 1).drop_last() =~= arr@.take(i as int));
            }
            let bit = arr[i];
            acc = 2 * acc + (if bit {
                1
            } else {
                0
            });
            i += 1;
        }
        proof {
            assert(arr@.take(n as int) =~= arr@);
        }
        Self { byte: acc }
    }

    /// The 8 bits of this byte, most-significant-bit first.
    pub fn get_bits(&self) -> (bits: Vec<bool>)
        ensures
            bits@ == byte_to_bits(self.byte),
    {
        let b = self.byte;
        let mut bits: Vec<bool> = Vec::new();
        let mut i: usize = 0;
        while i < 8
            invariant
                i <= 8,
                bits@.len() == i,
                forall|j: int| 0 <= j < i ==> bits@[j] == bit_of(b, j),
            decreases 8 - i,
        {
            let sh: u8 = (7 - i) as u8;
            let r = get_lsb(b >> sh);
            proof {
                assert(((b >> sh) >> 0u8) & 1 == (b >> sh) & 1) by (bit_vector);
                assert((7 - i as int) as u8 == sh);
            }
            bits.push(r);
            i += 1;
        }
        proof {
            assert(bits@ =~= byte_to_bits(b));
        }
        bits
    }

    /// This byte read as a character, code points 0 through 255.
    pub fn as_char(&self) -> (c: char)
        ensures
            c == self.byte as char,
    {
        self.byte as char
    }
}

/// The four bytes of a 32-bit integer, big-endian.
pub open spec fn be32(n: u32) -> Seq<u8> {
    seq![(n >> 24) as u8, (n >> 16) as u8, (n >> 8) as u8, n as u8]
}

/// The 32-bit value read back from four big-endian bytes.
pub open spec fn be32_val(s: Seq<u8>) -> u32
    recommends
        s.len() == 4,
{
    ((s[0] as int) * 0x1000000 + (s[1] as int) * 0x10000 + (s[2] as int) * 0x100 + (
    s[3] as int)) as u32
}

/// Reading back the big-endian bytes of a 32-bit integer gives the integer.
pub proof fn lemma_be32_round_trip(n: u32)
    ensures
        be32_val(be32(n)) == n,
{
    let b0: u8 = (n >> 24) as u8;
    let b1: u8 = (n >> 16) as u8;
    let b2: u8 = (n >> 8) as u8;
    let b3: u8 = n as u8;
    assert((b0 as u32) * 0x1000000 + (b1 as u32) * 0x10000 + (b2 as u32) * 0x100 + (b3 as u32)
        == n)
        by (bit_vector)
        requires
            b0 == (n >> 24) as u8,
            b1 == (n >> 16) as u8,
            b2 == (n >> 8) as u8,
            b3 == n as u8,
    ;
}

} // verus!
