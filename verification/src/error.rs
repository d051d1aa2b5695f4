//! Why an operation on stored bytes fails.
use vstd::prelude::*;

verus! {

#[derive(Clone, Copy, PartialEq, Eq, Debug, Structural)]
pub enum StoreError {
    /// The bytes end before what they announce.
    UnexpectedEof,
    /// An offset that no file can be read at.
    BadOffset,
    /// A payload that does not decode.
    Corrupt,
    /// A record whose payload is longer than its length prefix can say.
    RecordTooLarge,
    /// A table file shorter than its footer.
    TableTooSmall,
    /// A table file that does not carry the format's magic number.
    BadMagic,
}

} // verus!
