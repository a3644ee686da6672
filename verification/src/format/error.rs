use vstd::prelude::*;

verus! {

/// The kinds of input/output failure the format code meets.
#[derive(Clone, Copy, Debug, PartialEq, Eq, Structural)]
pub enum IoErrorKind {
    /// The data ended before the requested bytes.
    UnexpectedEof,
}

/// Errors of reading and writing PXAD files.
#[derive(Debug)]
pub enum FormatError {
    Io(IoErrorKind),
    InvalidData(String),
    UnexpectedEof(String),
    InvalidSliceLength,
    InvalidUtf8(String),
}

} // verus!
