//! Error taxonomy of the transport core.

use vstd::prelude::*;

verus! {

/// Outcome classification for stream, codec and store operations.
///
/// `EndOfStream` is a clean peer close or the clean end of the durable log:
/// it terminates a loop or a load but is not a failure of the data read so
/// far. The other variants are genuine failures.
#[derive(Clone, Copy, Debug, PartialEq, Eq, Structural)]
pub enum Error {
    /// Clean end of stream before any byte of a new frame or record.
    EndOfStream,
    /// I/O failure on the underlying stream.
    Transport,
    /// Malformed frame or torn durable record.
    Decode,
    /// Durable-file I/O failure.
    Storage,
    /// Any other wrapped failure.
    Other,
}

} // verus!
