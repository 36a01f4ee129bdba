use vstd::prelude::*;
use crate::entry::{EntryEdit, edit_views};

verus! {

/// What reading the history file gave.
pub enum StoreRead {
    /// No file exists yet.
    Missing,
    /// The file exists but could not be read.
    Unreadable,
    /// The file was read and parsed into these entries.
    Parsed(Vec<EntryEdit>),
    /// The file was read but did not parse.
    Corrupt,
}

/// Why the history could not be loaded.
#[derive(Clone, Copy, Debug, PartialEq, Eq, Structural)]
pub enum StoreError {
    /// The file could not be read.
    Io,
    /// The file did not parse.
    Parse,
}

/// The history that a read of the history file gives: empty when there is
/// no file, the parsed entries as they are, and an error when the file could
/// not be read or did not parse; such a file is never taken as empty.
pub fn loaded_history(read: StoreRead) -> (r: Result<Vec<EntryEdit>, StoreError>)
    ensures
        match read {
            StoreRead::Missing => r matches Ok(v) && v@.len() == 0,
            StoreRead::Unreadable => r == Err::<Vec<EntryEdit>, StoreError>(StoreError::Io),
            StoreRead::Corrupt => r == Err::<Vec<EntryEdit>, StoreError>(StoreError::Parse),
            StoreRead::Parsed(v) => r matches Ok(w) && edit_views(w@) == edit_views(v@),
        },
{
    match read {
        StoreRead::Missing => Ok(Vec::new()),
        StoreRead::Unreadable => Err(StoreError::Io),
        StoreRead::Corrupt => Err(StoreError::Parse),
        StoreRead::Parsed(v) => Ok(v),
    }
}

} // verus!
