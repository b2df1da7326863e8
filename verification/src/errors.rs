use vstd::prelude::*;

verus! {

/// What can go wrong while the game runs.
#[derive(Debug)]
pub enum MyErrors {
    /// The game's state contradicts itself; the text says where.
    InconsistentData(String),
    /// There is no folder of saved games.
    NoSaveFolder,
    /// Something that should not happen happened; the text says what.
    Unexpected(String),
    /// A saved game could not be read back.
    Deserialization,
    /// The game could not be written out.
    Serialization,
    /// A file could not be read; the text holds the reason.
    FileReading(String),
}

/// An `InconsistentData` error with the given text.
pub fn inconsistent(msg: &str) -> (e: MyErrors)
    ensures
        e matches MyErrors::InconsistentData(s) && s@ == msg@,
{
    MyErrors::InconsistentData(msg.to_owned())
}

} // verus!
