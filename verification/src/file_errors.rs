use vstd::prelude::*;

verus! {

/// Everything that can go wrong in the file system.
#[derive(Clone, Copy, Debug, PartialEq, Eq, Structural)]
pub enum FileError {
    OpenError,
    WriteError,
    ReadError,
    CorruptedINode,
    CorruptedBlock,
    NoInodes,
    NoMoreBlocks,
    NotDirectory,
    NotFile,
    NameExists,
    NameNotFound,
}

/// The text shown for each error.
pub open spec fn error_text(e: FileError) -> Seq<char> {
    match e {
        FileError::OpenError => "Error opening file."@,
        FileError::WriteError => "Error writing to file."@,
        FileError::ReadError => "Error reading from file"@,
        FileError::CorruptedINode => "Corrupted INode"@,
        FileError::CorruptedBlock => "Corrupted block"@,
        FileError::NoInodes => "Out of inodes"@,
        FileError::NoMoreBlocks => "Out of blocks"@,
        FileError::NotDirectory => "Not a directory"@,
        FileError::NotFile => "Not a file"@,
        FileError::NameExists => "Name already exists"@,
        FileError::NameNotFound => "Name not found"@,
    }
}

impl FileError {
    /// The human-readable description of the error.
    pub fn message(&self) -> (s: String)
        ensures
            s@ == error_text(*self),
    {
        match self {
            FileError::OpenError => String::from_str("Error opening file."),
            FileError::WriteError => String::from_str("Error writing to file."),
            FileError::ReadError => String::from_str("Error reading from file"),
            FileError::CorruptedINode => String::from_str("Corrupted INode"),
            FileError::CorruptedBlock => String::from_str("Corrupted block"),
            FileError::NoInodes => String::from_str("Out of inodes"),
            FileError::NoMoreBlocks => String::from_str("Out of blocks"),
            FileError::NotDirectory => String::from_str("Not a directory"),
            FileError::NotFile => String::from_str("Not a file"),
            FileError::NameExists => String::from_str("Name already exists"),
            FileError::NameNotFound => String::from_str("Name not found"),
        }
    }
}

} // verus!
