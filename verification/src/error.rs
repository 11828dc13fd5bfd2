use vstd::prelude::*;

verus! {

/// The data-integrity failures of the codec. None of them is transient.
#[derive(Debug, Clone, Copy, PartialEq, Eq, Structural)]
pub enum HuffmanError {
    /// A tree was asked for, but the frequency table holds no symbol.
    EmptyAlphabet,
    /// The text holds a symbol that the code table has no code for.
    UnknownSymbol { symbol: char },
    /// The bit stream ended in the middle of a code, or before the
    /// number of bits it was declared to hold.
    TruncatedStream,
    /// The persisted blob is malformed.
    CorruptContainer,
}

} // verus!
