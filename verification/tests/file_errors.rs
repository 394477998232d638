use filesystem::file_errors::FileError;

#[test]
fn error_messages() {
    assert_eq!(FileError::OpenError.message(), "Error opening file.");
    assert_eq!(FileError::WriteError.message(), "Error writing to file.");
    assert_eq!(FileError::ReadError.message(), "Error reading from file");
    assert_eq!(FileError::CorruptedINode.message(), "Corrupted INode");
    assert_eq!(FileError::CorruptedBlock.message(), "Corrupted block");
    assert_eq!(FileError::NoInodes.message(), "Out of inodes");
    assert_eq!(FileError::NameNotFound.message(), "Name not found");
}
