//! The errors of the transport and of the parser.
use vstd::prelude::*;

verus! {

#[derive(Debug, Clone, Copy, PartialEq, Eq)]
pub enum Error {
    /// The byte pipe under a reader or writer failed.
    Transport,
    /// The byte source ended.
    EndOfStream,
    /// A frame announced a length above the reader's frame ceiling.
    FrameTooLarge,
    /// The staging buffer would grow past its ceiling.
    BufferOverflow,
    /// A frame's payload is not a gzip stream.
    Decode,
    /// The peer opened with other bytes than the protocol's handshake.
    BadHandshake,
    /// The document holds bytes after its last complete tag or attribute.
    TrailingInput,
}

} // verus!
