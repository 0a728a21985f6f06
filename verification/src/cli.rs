//! The argument model of the command-line surface: a parsed invocation is
//! either a write (embed data into a carrier) or a read (extract data from a
//! carrier). Parsing the command line itself is the caller's business; these
//! types only carry the result.

use vstd::prelude::*;

verus! {

/// A parsed invocation: embed into an image, or extract from one.
#[derive(Debug, PartialEq)]
pub enum ArgType {
    Write(WriteArgument),
    Read(ReadArgument),
}

/// Arguments of a write: the carrier image's path, the data to embed (text,
/// or the path of a data file), and the output path.
#[derive(Debug, PartialEq)]
pub struct WriteArgument {
    pub input: String,
    pub data: String,
    pub output: String,
}

/// Arguments of a read: the carrier image's path, and whether to dump the
/// extracted bytes in hex instead of parsing them.
#[derive(Debug, PartialEq)]
pub struct ReadArgument {
    pub input: String,
    pub hexdump: bool,
}

impl WriteArgument {
    pub fn new(input: String, data: String, output: String) -> (r: Self)
        ensures
            r.input@ == input@,
            r.data@ == data@,
            r.output@ == output@,
    {
        Self { input, data, output }
    }
}

impl ReadArgument {
    pub fn new(input: String, hexdump: bool) -> (r: Self)
        ensures
            r.input@ == input@,
            r.hexdump == hexdump,
    {
        Self { input, hexdump }
    }
}

/// A full parsed command line.
#[derive(Debug, PartialEq)]
pub struct Arguments {
    pub args: ArgType,
}

} // verus!
