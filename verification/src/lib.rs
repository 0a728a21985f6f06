//! Least-significant-bit steganography: a payload (text or an RGBA image) is
//! serialized into a self-describing byte frame, the frame is expanded into a
//! bit sequence, and each bit is written into the least-significant bit of one
//! color channel of a carrier pixel grid. Decoding scans the channels back in
//! the same order, detects the frame terminator, and parses the payload.

pub mod bits;
pub mod cli;
pub mod embed;
pub mod extract;
pub mod frame;
pub mod grid;
pub mod laws;
