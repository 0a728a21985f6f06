//! The decode direction: scan the carrier's channels in raster order, pull
//! one bit from each channel's least-significant bit, group the bits into
//! bytes, stop as soon as the accumulated bytes end in the terminator, and
//! parse the bytes before it back into a payload.

use vstd::prelude::*;
use crate::bits::{
    Byte, bit_of, bits_val, bytes_of, be32_val, terminator_seq, lemma_bits_val_bound,
    lemma_bytes_of_push, get_lsb,
};
use crate::embed::StegError;
use crate::grid::PixelGrid;
use vstd::utf8::{valid_utf8, decode_utf8, encode_utf8};

verus! {

/// The least-significant bits of a channel byte sequence, in order.
pub open spec fn lsb_bits(data: Seq<u8>) -> Seq<bool> {
    Seq::new(data.len(), |i: int| bit_of(data[i], 7))
}

/// Byte `j` recovered from the carrier: the 8 channel LSBs starting at
/// channel `8*j`, read most-significant-bit first.
pub open spec fn scanned_byte(data: Seq<u8>, j: int) -> u8 {
    bits_val(lsb_bits(data).subrange(8 * j, 8 * j + 8)) as u8
}

/// Every byte the carrier's channels can yield, in order. A trailing group
/// of fewer than 8 channels yields no byte.
pub open spec fn scanned_bytes(data: Seq<u8>) -> Seq<u8> {
    Seq::new(data.len() / 8, |j: int| scanned_byte(data, j))
}

/// Whether a byte sequence ends in the full terminator sentinel.
pub open spec fn ends_with_term(s: Seq<u8>) -> bool {
    s.len() >= 8 && s.subrange(s.len() - 8, s.len() as int) == terminator_seq()
}

/// The number of bytes the scanner consumes when it starts `k` bytes in:
/// the least position at or after `k` whose prefix ends in the terminator,
/// or the whole stream when no prefix does.
pub open spec fn scan_end_from(full: Seq<u8>, k: int) -> int
    decreases full.len() - k,
{
    if k >= full.len() {
        full.len() as int
    } else if ends_with_term(full.take(k)) {
        k
    } else {
        scan_end_from(full, k + 1)
    }
}

/// The number of bytes the scanner consumes: the least prefix length whose
/// bytes end in the terminator, or the whole stream when no prefix does.
pub open spec fn scan_end(full: Seq<u8>) -> int {
    scan_end_from(full, 0)
}

/// Whether the scanner stops on a terminator match.
pub open spec fn term_found(full: Seq<u8>) -> bool {
    ends_with_term(full.take(scan_end(full)))
}

/// The payload bytes the scanner hands to the parser: everything consumed
/// before the terminator; the whole stream when no terminator appears.
pub open spec fn scanned_payload(full: Seq<u8>) -> Seq<u8> {
    if term_found(full) {
        full.take(scan_end(full) - 8)
    } else {
        full
    }
}

proof fn lemma_scan_end_from_props(full: Seq<u8>, k0: int)
    requires
        0 <= k0 <= full.len(),
    ensures
        k0 <= scan_end_from(full, k0) <= full.len(),
        forall|k: int|
            k0 <= k < scan_end_from(full, k0) ==> !ends_with_term(#[trigger] full.take(k)),
        ends_with_term(full.take(scan_end_from(full, k0))) || scan_end_from(full, k0)
            == full.len(),
    decreases full.len() - k0,
{
    if k0 < full.len() && !ends_with_term(full.take(k0)) {
        lemma_scan_end_from_props(full, k0 + 1);
    }
}

/// What the scanner's stopping point satisfies: no prefix before it ends in
/// the terminator, and it either marks a terminator match or the stream's
/// end.
pub proof fn lemma_scan_end_props(full: Seq<u8>)
    ensures
        0 <= scan_end(full) <= full.len(),
        forall|k: int| 0 <= k < scan_end(full) ==> !ends_with_term(#[trigger] full.take(k)),
        term_found(full) || scan_end(full) == full.len(),
{
    lemma_scan_end_from_props(full, 0);
}

proof fn lemma_scan_end_from_unique(full: Seq<u8>, k0: int, m: int)
    requires
        0 <= k0 <= m <= full.len(),
        ends_with_term(full.take(m)),
        forall|k: int| k0 <= k < m ==> !ends_with_term(#[trigger] full.take(k)),
    ensures
        scan_end_from(full, k0) == m,
    decreases full.len() - k0,
{
    if k0 < m {
        lemma_scan_end_from_unique(full, k0 + 1, m);
    }
}

/// The first prefix that ends in the terminator is exactly where the scanner
/// stops: scanning a stream whose terminator's last byte sits at position
/// `m - 1`, with no earlier match, consumes exactly `m` bytes.
pub proof fn lemma_scan_end_unique(full: Seq<u8>, m: int)
    requires
        0 <= m <= full.len(),
        ends_with_term(full.take(m)),
        forall|k: int| 0 <= k < m ==> !ends_with_term(#[trigger] full.take(k)),
    ensures
        scan_end(full) == m,
        term_found(full),
        scanned_payload(full) == full.take(m - 8),
{
    lemma_scan_end_from_unique(full, 0, m);
}

/// Scans the carrier's channels in raster order, one bit per channel, 8 bits
/// per byte most-significant-bit first, and stops as soon as the accumulated
/// bytes end in the terminator. Returns the bytes before the terminator and
/// whether the terminator was found; without a match the whole grid is
/// consumed and everything scanned is returned.
pub fn scan_frame_bytes(grid: &PixelGrid) -> (r: (Vec<Byte>, bool))
    ensures
        r.1 == term_found(scanned_bytes(grid.data@)),
        bytes_of(r.0@) == scanned_payload(scanned_bytes(grid.data@)),
{
    let ghost full = scanned_bytes(grid.data@);
    let n: usize = grid.data.len();
    let nbytes: usize = n / 8;
    let term = Byte::ending_seq();
    proof {
        assert(bytes_of(term@).len() == 8);
        assert(term@.len() == 8);
    }
    let mut out: Vec<Byte> = Vec::new();
    let mut matched = false;
    let mut j: usize = 0;
    while j < nbytes && !matched
        invariant
            n == grid.data@.len(),
            nbytes == n / 8,
            full == scanned_bytes(grid.data@),
            full.len() == nbytes,
            bytes_of(term@) == terminator_seq(),
            term@.len() == 8,
            j <= nbytes,
            out@.len() == j,
            bytes_of(out@) == full.take(j as int),
            !matched ==> forall|k: int|
                0 <= k <= j ==> !ends_with_term(#[trigger] full.take(k)),
            matched ==> {
                &&& j >= 1
                &&& ends_with_term(full.take(j as int))
                &&& forall|k: int| 0 <= k < j ==> !ends_with_term(#[trigger] full.take(k))
            },
        decreases nbytes - j,
    {
        let mut bitbuf: Vec<bool> = Vec::new();
        let mut t: usize = 0;
        while t < 8
            invariant
                n == grid.data@.len(),
                nbytes == n / 8,
                j < nbytes,
                t <= 8,
                bitbuf@.len() == t,
                forall|u: int|
                    0 <= u < t ==> bitbuf@[u] == lsb_bits(grid.data@)[8 * (j as int) + u],
            decreases 8 - t,
        {
            let idx: usize = 8 * j + t;
            let bit = get_lsb(grid.data[idx]);
            bitbuf.push(bit);
            t += 1;
        }
        let b = Byte::from_bits(bitbuf.as_slice());
        proof {
            assert(bitbuf@ =~= lsb_bits(grid.data@).subrange(8 * (j as int), 8 * (j as int) + 8));
            lemma_bits_val_bound(bitbuf@);
            assert(b.byte == scanned_byte(grid.data@, j as int));
            assert(full[j as int] == scanned_byte(grid.data@, j as int));
        }
        let ghost pre = out@;
        out.push(b);
        proof {
            lemma_bytes_of_push(pre, b);
            assert(full.take(j + 1) =~= full.take(j as int).push(full[j as int]));
        }
        if out.len() >= 8 {
            let nout: usize = out.len();
            let base: usize = nout - 8;
            let mut eq = true;
            let mut u: usize = 0;
            while u < 8
                invariant
                    out@.len() == nout,
                    nout >= 8,
                    base == nout - 8,
                    bytes_of(term@) == terminator_seq(),
                    term@.len() == 8,
                    u <= 8,
                    eq == (forall|v: int|
                        0 <= v < u ==> bytes_of(out@)[base + v] == #[trigger] terminator_seq()[v]),
                decreases 8 - u,
            {
                if out[base + u].byte != term[u].byte {
                    eq = false;
                }
                u += 1;
            }
            proof {
                let cur = full.take(j + 1);
                assert(cur == bytes_of(out@));
                if eq {
                    assert(cur.subrange(cur.len() - 8, cur.len() as int) =~= terminator_seq());
                    assert(ends_with_term(cur));
                } else {
                    assert(!ends_with_term(cur)) by {
                        if ends_with_term(cur) {
                            assert(forall|v: int|
                                0 <= v < 8 ==> cur.subrange(cur.len() - 8, cur.len() as int)[v]
                                    == #[trigger] terminator_seq()[v]);
                        }
                    }
                }
            }
            if eq {
                matched = true;
            }
        } else {
            proof {
                assert(full.take(j + 1).len() < 8);
                assert(!ends_with_term(full.take(j + 1)));
            }
        }
        j += 1;
    }
    if matched {
        let keep: usize = out.len() - 8;
        let ghost pre = out@;
        out.truncate(keep);
        proof {
            lemma_scan_end_unique(full, j as int);
            assert(bytes_of(out@) =~= bytes_of(pre).subrange(0, keep as int));
            assert(full.take(j as int).subrange(0, keep as int) =~= full.take(keep as int));
        }
        (out, true)
    } else {
        proof {
            lemma_scan_end_props(full);
            assert(full.take(nbytes as int) =~= full);
            assert(scan_end(full) == full.len());
            assert(!term_found(full));
        }
        (out, false)
    }
}

/// Relies on `String::push`: appends the given character to the end of the
/// string.
#[verifier::external_body]
fn push_char(s: &mut String, c: char)
    ensures
        final(s)@ == old(s)@ + seq![c],
{
    s.push(c);
}

/// Relies on `String::from_utf8`: accepts the given bytes exactly when they
/// are valid UTF-8, and then returns the string whose UTF-8 encoding is
/// those bytes.
#[verifier::external_body]
fn string_from_utf8(v: &Vec<u8>) -> (r: Option<String>)
    ensures
        match r {
            Some(s) => valid_utf8(v@) && encode_utf8(s@) == v@,
            None => !valid_utf8(v@),
        },
{
    String::from_utf8(v.clone()).ok()
}

/// A byte stream with its zero-valued bytes dropped.
pub open spec fn nonzero_bytes(bs: Seq<u8>) -> Seq<u8>
    decreases bs.len(),
{
    if bs.len() == 0 {
        Seq::empty()
    } else {
        nonzero_bytes(bs.drop_last()) + (if bs.last() == 0 {
            Seq::<u8>::empty()
        } else {
            seq![bs.last()]
        })
    }
}

/// A byte stream read byte by byte, each byte becoming the character with
/// its code point: the fallback reading for bytes that are not UTF-8.
pub open spec fn chars_of_bytes(bs: Seq<u8>) -> Seq<char>
    decreases bs.len(),
{
    if bs.len() == 0 {
        Seq::empty()
    } else {
        chars_of_bytes(bs.drop_last()) + seq![bs.last() as char]
    }
}

/// A byte stream read as text: its zero bytes are dropped, and what remains
/// is decoded as UTF-8; bytes that are no valid UTF-8 are read byte by byte
/// instead, each as its own code point.
pub open spec fn text_of(bs: Seq<u8>) -> Seq<char> {
    if valid_utf8(nonzero_bytes(bs)) {
        decode_utf8(nonzero_bytes(bs))
    } else {
        chars_of_bytes(nonzero_bytes(bs))
    }
}

/// Reassembles the body of a text frame: drops any zero-valued bytes and
/// decodes the rest as UTF-8, falling back to a byte-by-byte reading when
/// the bytes are no valid UTF-8.
pub fn read_bytes_as_text(bytes: Vec<Byte>) -> (r: String)
    ensures
        r@ == text_of(bytes_of(bytes@)),
{
    let mut filtered: Vec<u8> = Vec::new();
    let n: usize = bytes.len();
    let mut i: usize = 0;
    while i < n
        invariant
            n == bytes@.len(),
            i <= n,
            filtered@ == nonzero_bytes(bytes_of(bytes@).take(i as int)),
        decreases n - i,
    {
        proof {
            assert(bytes_of(bytes@).take(i + 1).drop_last() =~= bytes_of(bytes@).take(i as int));
            assert(bytes_of(bytes@).take(i + 1).last() == bytes@[i as int].byte);
        }
        let b = bytes[i];
        if b.byte != 0 {
            filtered.push(b.byte);
        }
        i += 1;
    }
    proof {
        assert(bytes_of(bytes@).take(n as int) =~= bytes_of(bytes@));
    }
    match string_from_utf8(&filtered) {
        Some(s) => {
            proof {
                vstd::utf8::encode_utf8_decode_utf8(s@);
            }
            s
        },
        None => {
            let mut result = String::new();
            let m: usize = filtered.len();
            let mut j: usize = 0;
            while j < m
                invariant
                    m == filtered@.len(),
                    j <= m,
                    result@ == chars_of_bytes(filtered@.take(j as int)),
                decreases m - j,
            {
                proof {
                    assert(filtered@.take(j + 1).drop_last() =~= filtered@.take(j as int));
                    assert(filtered@.take(j + 1).last() == filtered@[j as int]);
                }
                push_char(&mut result, filtered[j] as char);
                j += 1;
            }
            proof {
                assert(filtered@.take(m as int) =~= filtered@);
            }
            result
        },
    }
}

/// Reads four bytes as a big-endian 32-bit integer.
pub fn read_bytes_as_u32(bytes: &[Byte]) -> (r: u32)
    requires
        bytes@.len() == 4,
    ensures
        r == be32_val(bytes_of(bytes@)),
{
    let r: u32 = ((bytes[0].byte as u32) << 24) | ((bytes[1].byte as u32) << 16) | ((bytes[2].byte
        as u32) << 8) | (bytes[3].byte as u32);
    proof {
        let a = bytes@[0].byte;
        let b = bytes@[1].byte;
        let c = bytes@[2].byte;
        let d = bytes@[3].byte;
        assert(((a as u32) << 24) | ((b as u32) << 16) | ((c as u32) << 8) | (d as u32) == ((
        a as int) * 0x1000000 + (b as int) * 0x10000 + (c as int) * 0x100 + (d as int)) as u32)
            by (bit_vector);
    }
    r
}

/// Whether the first 10 bytes of an image body form a valid dimensions
/// block: the delimiter byte `'|'` stands exactly at positions 4 and 9, so
/// that a 4-byte integer precedes each delimiter.
pub open spec fn dims_parse_ok(bs: Seq<u8>) -> bool {
    &&& bs.len() >= 10
    &&& bs[4] == 124
    &&& bs[9] == 124
    &&& forall|i: int| 0 <= i < 10 && i != 4 && i != 9 ==> bs[i] != 124
}

/// The number of body bytes an image parse consumes: only complete 4-byte
/// pixel windows count, and never more than the claimed grid holds.
pub open spec fn pixel_bytes_used(bs: Seq<u8>, width: u32, height: u32) -> int {
    let complete = 4 * ((bs.len() - 10) / 4);
    let cap = width as int * height as int * 4;
    if complete <= cap {
        complete
    } else {
        cap
    }
}

/// Parses the body of an image frame: the 10-byte dimensions block gives
/// width and height, the rest fills the new grid pixel by pixel in raster
/// order; a short body leaves the remaining pixels at zero, and an
/// incomplete trailing window is ignored.
pub fn read_bytes_as_image(bytes: Vec<Byte>) -> (r: Result<PixelGrid, StegError>)
    ensures
        ({
            let bs = bytes_of(bytes@);
            match r {
                Ok(g) => {
                    &&& dims_parse_ok(bs)
                    &&& g.width == be32_val(bs.subrange(0, 4))
                    &&& g.height == be32_val(bs.subrange(5, 9))
                    &&& g.wf()
                    &&& g.width as int * g.height as int * 4 <= usize::MAX
                    &&& forall|k: int|
                        0 <= k < g.data@.len() ==> g.data@[k] == (if k < pixel_bytes_used(
                            bs,
                            g.width,
                            g.height,
                        ) {
                            bs[10 + k]
                        } else {
                            0u8
                        })
                },
                Err(e) => {
                    &&& (e == StegError::MalformedDimensions || e == StegError::OversizedDimensions)
                    &&& ((e == StegError::MalformedDimensions) <==> !dims_parse_ok(bs))
                    &&& (e == StegError::OversizedDimensions ==> be32_val(bs.subrange(0, 4)) as int
                        * be32_val(bs.subrange(5, 9)) as int * 4 > usize::MAX)
                },
            }
        }),
{
    let ghost bs = bytes_of(bytes@);
    let n: usize = bytes.len();
    if n < 10 {
        return Err(StegError::MalformedDimensions);
    }
    let mut ok = true;
    let mut i: usize = 0;
    while i < 10
        invariant
            n == bytes@.len(),
            bs == bytes_of(bytes@),
            n >= 10,
            i <= 10,
            ok == (forall|v: int|
                0 <= v < i ==> ((#[trigger] bs[v] == 124) <==> (v == 4 || v == 9))),
        decreases 10 - i,
    {
        proof {
            assert(bs[i as int] == bytes@[i as int].byte);
        }
        let is_delim = bytes[i].byte == 124;
        let want = i == 4 || i == 9;
        if is_delim != want {
            ok = false;
        }
        i += 1;
    }
    if !ok {
        return Err(StegError::MalformedDimensions);
    }
    assert(dims_parse_ok(bs));
    let width = read_bytes_as_u32(vstd::slice::slice_subrange(bytes.as_slice(), 0, 4));
    let height = read_bytes_as_u32(vstd::slice::slice_subrange(bytes.as_slice(), 5, 9));
    proof {
        assert(bytes_of(bytes@.subrange(0, 4)) =~= bs.subrange(0, 4));
        assert(bytes_of(bytes@.subrange(5, 9)) =~= bs.subrange(5, 9));
        assert((width as u128) * (height as u128) < 0x10000000000000000u128) by (nonlinear_arith)
            requires
                (width as u128) < 0x100000000u128,
                (height as u128) < 0x100000000u128,
        ;
    }
    let total: u128 = (width as u128) * (height as u128) * 4;
    if total > usize::MAX as u128 {
        return Err(StegError::OversizedDimensions);
    }
    let n_data: usize = total as usize;
    let avail: usize = n - 10;
    let complete: usize = (avail / 4) * 4;
    let limit: usize = if complete <= n_data {
        complete
    } else {
        n_data
    };
    proof {
        assert(limit as int == pixel_bytes_used(bs, width, height));
    }
    let mut data: Vec<u8> = Vec::new();
    let mut k: usize = 0;
    while k < n_data
        invariant
            n == bytes@.len(),
            bs == bytes_of(bytes@),
            n >= 10,
            limit <= n - 10,
            limit <= n_data,
            k <= n_data,
            data@.len() == k,
            forall|v: int|
                0 <= v < k ==> data@[v] == (if v < limit {
                    bs[10 + v]
                } else {
                    0u8
                }),
        decreases n_data - k,
    {
        if k < limit {
            data.push(bytes[10 + k].byte);
        } else {
            data.push(0u8);
        }
        k += 1;
    }
    Ok(PixelGrid { width, height, data })
}

/// The character for a hex digit value below 16, lower case.
pub open spec fn hex_digit(n: u8) -> char {
    if n < 10 {
        (48 + n) as char
    } else {
        (87 + n) as char
    }
}

/// The hex dump of a byte stream: two lower-case hex digits per byte, in
/// byte order.
pub open spec fn hex_of(bs: Seq<u8>) -> Seq<char>
    decreases bs.len(),
{
    if bs.len() == 0 {
        Seq::empty()
    } else {
        hex_of(bs.drop_last()) + seq![hex_digit(bs.last() / 16), hex_digit(bs.last() % 16)]
    }
}

/// Renders a byte buffer as its hex dump.
pub fn dump_bytes(bytes: &Vec<Byte>) -> (r: String)
    ensures
        r@ == hex_of(bytes_of(bytes@)),
{
    let mut result = String::new();
    let n: usize = bytes.len();
    let mut i: usize = 0;
    while i < n
        invariant
            n == bytes@.len(),
            i <= n,
            result@ == hex_of(bytes_of(bytes@).take(i as int)),
        decreases n - i,
    {
        proof {
            assert(bytes_of(bytes@).take(i + 1).drop_last() =~= bytes_of(bytes@).take(i as int));
            assert(bytes_of(bytes@).take(i + 1).last() == bytes@[i as int].byte);
        }
        let b = bytes[i].byte;
        let hi: u8 = b / 16;
        let lo: u8 = b % 16;
        let hc: char = if hi < 10 {
            (48 + hi) as char
        } else {
            (87 + hi) as char
        };
        let lc: char = if lo < 10 {
            (48 + lo) as char
        } else {
            (87 + lo) as char
        };
        push_char(&mut result, hc);
        push_char(&mut result, lc);
        i += 1;
    }
    proof {
        assert(bytes_of(bytes@).take(n as int) =~= bytes_of(bytes@));
    }
    result
}

/// What a decode recovers from a carrier: the text of a `"txt"` frame, the
/// grid of an `"img"` frame, or a hex dump where no known header stands.
#[derive(Debug, PartialEq)]
pub enum DecodedPayload {
    Text(String),
    Image(PixelGrid),
    Unknown(String),
}

/// Decodes a carrier grid: scans its channel LSBs up to the terminator,
/// splits the header tag off the recovered bytes, and parses the body by the
/// tag — text, image, or a hex dump for an unknown tag (and for a stream too
/// short to hold a tag). With `hexdump` set, everything scanned, terminator
/// included, is hex dumped instead of parsed. The only fatal errors are a
/// malformed dimensions block in an `"img"` frame and image dimensions too
/// large for this machine.
pub fn decode_image(grid: &PixelGrid, hexdump: bool) -> (r: Result<DecodedPayload, StegError>)
    ensures
        ({
            let full = scanned_bytes(grid.data@);
            let pay = scanned_payload(full);
            if hexdump {
                match r {
                    Ok(DecodedPayload::Unknown(s)) => s@ == hex_of(full.take(scan_end(full))),
                    _ => false,
                }
            } else if pay.len() < 3 {
                match r {
                    Ok(DecodedPayload::Unknown(s)) => s@ == hex_of(pay),
                    _ => false,
                }
            } else if pay.take(3) == crate::frame::txt_header() {
                match r {
                    Ok(DecodedPayload::Text(t)) => t@ == text_of(pay.skip(3)),
                    _ => false,
                }
            } else if pay.take(3) == crate::frame::img_header() {
                let body = pay.skip(3);
                if !dims_parse_ok(body) {
                    r == Err::<DecodedPayload, StegError>(StegError::MalformedDimensions)
                } else if be32_val(body.subrange(0, 4)) as int * be32_val(body.subrange(5, 9))
                    as int * 4 > usize::MAX {
                    r == Err::<DecodedPayload, StegError>(StegError::OversizedDimensions)
                } else {
                    match r {
                        Ok(DecodedPayload::Image(g)) => {
                            &&& g.width == be32_val(body.subrange(0, 4))
                            &&& g.height == be32_val(body.subrange(5, 9))
                            &&& g.wf()
                            &&& forall|k: int|
                                0 <= k < g.data@.len() ==> g.data@[k] == (if k < pixel_bytes_used(
                                    body,
                                    g.width,
                                    g.height,
                                ) {
                                    body[10 + k]
                                } else {
                                    0u8
                                })
                        },
                        _ => false,
                    }
                }
            } else {
                match r {
                    Ok(DecodedPayload::Unknown(s)) => s@ == hex_of(pay.skip(3)),
                    _ => false,
                }
            }
        }),
{
    let ghost full = scanned_bytes(grid.data@);
    let ghost pay = scanned_payload(full);
    let (bytes, found) = scan_frame_bytes(grid);
    proof {
        assert(bytes@.len() == pay.len());
    }
    if hexdump {
        let mut all = bytes;
        proof {
            lemma_scan_end_props(full);
        }
        if found {
            let mut t = Byte::ending_seq();
            all.append(&mut t);
            proof {
                assert(full.take(scan_end(full)) =~= pay + terminator_seq());
                assert(bytes_of(all@) =~= pay + terminator_seq());
            }
        } else {
            proof {
                assert(full.take(scan_end(full)) =~= pay);
            }
        }
        return Ok(DecodedPayload::Unknown(dump_bytes(&all)));
    }
    if bytes.len() < 3 {
        return Ok(DecodedPayload::Unknown(dump_bytes(&bytes)));
    }
    let mut header = bytes;
    let body = header.split_off(3);
    proof {
        assert(bytes_of(body@) =~= pay.skip(3));
        assert(bytes_of(header@) =~= pay.take(3));
        assert(pay.take(3)[0] == header@[0].byte);
        assert(pay.take(3)[1] == header@[1].byte);
        assert(pay.take(3)[2] == header@[2].byte);
    }
    let is_txt = header[0].byte == 116 && header[1].byte == 120 && header[2].byte == 116;
    let is_img = header[0].byte == 105 && header[1].byte == 109 && header[2].byte == 103;
    proof {
        if is_txt {
            assert(pay.take(3) =~= crate::frame::txt_header());
        } else {
            assert(pay.take(3) != crate::frame::txt_header()) by {
                if pay.take(3) == crate::frame::txt_header() {
                    assert(pay.take(3)[0] == 116 && pay.take(3)[1] == 120 && pay.take(3)[2]
                        == 116);
                }
            }
        }
        if is_img {
            assert(pay.take(3) =~= crate::frame::img_header());
        } else {
            assert(pay.take(3) != crate::frame::img_header()) by {
                if pay.take(3) == crate::frame::img_header() {
                    assert(pay.take(3)[0] == 105 && pay.take(3)[1] == 109 && pay.take(3)[2]
                        == 103);
                }
            }
        }
    }
    if is_txt {
        Ok(DecodedPayload::Text(read_bytes_as_text(body)))
    } else if is_img {
        match read_bytes_as_image(body) {
            Ok(g) => Ok(DecodedPayload::Image(g)),
            Err(e) => Err(e),
        }
    } else {
        Ok(DecodedPayload::Unknown(dump_bytes(&body)))
    }
}

} // verus!
