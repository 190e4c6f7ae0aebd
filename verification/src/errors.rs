use vstd::prelude::*;

verus! {

/// Every failure an editing or loading operation can report.
///
/// All editing errors are recoverable at the command boundary: a failing
/// operation leaves the database, the roster and the cursor state exactly as
/// they were before the call.
#[derive(Clone, Copy, Debug, PartialEq, Eq, Structural)]
pub enum EditError {
    /// A character, stroke or point index does not refer to an existing
    /// element.
    IndexOutOfRange,
    /// A point-editing command that consumes the staged point ran while no
    /// point was staged.
    NoStagedPoint,
    /// Deleting the only remaining point of a stroke is refused.
    LastPointProtected,
    /// A single-stroke move hit the first or last position, so the neighbour
    /// to swap with does not exist.
    BoundaryReached,
    /// A block move named more strokes than the entry holds from the given
    /// index onward.
    InsufficientLength,
    /// The block to move already forms the suffix of the stroke list.
    AlreadyAtEnd,
    /// The character to add is already in the roster; carries its roster
    /// index so the caller can select the existing entry.
    AlreadyExists(usize),
    /// A lookup named a character the database does not hold.
    UnknownCharacter,
    /// A prefix search found no matching character.
    NotFound,
    /// Decoding failed: the bytes are truncated or structurally invalid.
    MalformedData,
    /// The host could not obtain the initial database.  The engine itself
    /// never produces this value; the host reports it when the startup load
    /// fails before any bytes reach the decoder.
    StartupFetchFailed,
}

} // verus!
