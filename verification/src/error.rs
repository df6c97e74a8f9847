use vstd::prelude::*;

verus! {

/// Everything that can go wrong in the library. Variants that refer to an
/// argument or a walked path carry its index, so that callers can name it.
#[derive(Clone, Copy, Debug, PartialEq, Eq, Structural)]
pub enum PackError {
    /// The input ended before a complete header was read.
    TruncatedHeader,
    /// The first bytes are not the magic tag.
    InvalidMagic,
    /// The header carries a version this library does not read.
    UnsupportedVersion(u8),
    /// The system random source failed.
    RandomSource,
    /// Both `--fast` and `--compact`, or one of them twice.
    MultipleCompressionModes,
    /// `-r` given more than once.
    RepeatedRecursiveFlag,
    /// An option that is not known; the index of the argument.
    UnknownOption(usize),
    /// No input, or more than one.
    PackUsage,
    /// The input path does not exist.
    InputNotFound,
    /// `-r` given for something that is not a directory.
    RecursiveNeedsDirectory,
    /// A directory given without `-r`.
    DirectoryNeedsRecursive,
    /// `miniunpack` was not given exactly one archive.
    UnpackUsage,
    /// The input path has no final name component.
    NoFileName,
    /// A walked entry is neither a regular file nor a directory; its index.
    UnsupportedSourcePath(usize),
    /// The input is neither a regular file nor a directory.
    UnsupportedSourceKind,
    /// An archive entry path is absolute or climbs out with `..`.
    InvalidOutputPath,
    /// An archive entry path names nothing.
    EmptyOutputPath,
    /// An archive entry would overwrite an existing path.
    OverwriteRefused,
    /// An archive entry is neither a regular file nor a directory.
    UnsupportedEntry,
    /// The archive holds no entry.
    EmptyArchive,
    /// Key derivation failed.
    KeyDerivation,
    /// A chunk could not be encrypted.
    Encryption,
    /// A chunk could not be decrypted: wrong password or corrupted file.
    Decryption,
    /// The two passwords entered differ.
    PasswordMismatch,
    /// An empty password where one is required.
    EmptyPassword,
}

} // verus!
