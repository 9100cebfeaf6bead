use vstd::prelude::*;

verus! {

/// The setting that a configuration error is about.
#[derive(Debug, Clone, Copy, PartialEq, Eq, Structural)]
pub enum Setting {
    /// The number of new samples per block (the block half-size).
    BlockSize,
    /// The number of samples in a channel's whole signal.
    SampleCount,
}

/// The failures that the engine reports; every one is fatal.
#[derive(Debug, Clone, Copy, PartialEq, Eq, Structural)]
pub enum CodecError {
    /// A setting has a value that no block layout can be made of.
    InvalidConfiguration { setting: Setting, value: usize },
    /// A buffer handed to processing does not have the configured length.
    LengthMismatch { expected: usize, found: usize },
}

} // verus!
