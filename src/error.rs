use vstd::prelude::*;

verus! {

/// The ways in which resolving the inputs or measuring an image can fail.
#[derive(Clone, Copy, Debug, PartialEq, Eq, Structural)]
pub enum EngineError {
    /// The input root is neither a readable directory nor a regular file.
    Path,
    /// A timestamp needed for ordering is not available for some entry.
    Metadata,
    /// An ordering key or metric mode outside the defined set, or a partly
    /// given region of interest.
    Config,
    /// The region of interest is empty or does not lie within the image.
    Roi,
    /// A file could not be read as an image.
    Decode,
    /// The decoded pixel layout is not one of the supported ones, or its
    /// samples do not match its dimensions.
    UnsupportedFormat,
}

/// The first failing item of a run: its position and its error.
#[derive(Clone, Copy, Debug, PartialEq, Eq, Structural)]
pub struct ItemFailure {
    pub index: usize,
    pub error: EngineError,
}

} // verus!
