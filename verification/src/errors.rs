//! The error taxonomy of the library: every fallible public function
//! returns one of these variants, and its contract says exactly when.

use vstd::prelude::*;

verus! {

/// The file type a manifest entry or an on-disk path can have.
#[derive(Clone, Copy, Debug, PartialEq, Eq, Structural)]
pub enum FileKind {
    Directory,
    Regular,
    Symlink,
}

/// The file type named by the mode bits' type nibble, if it is one the
/// archive format supports.
pub open spec fn spec_file_kind(mode: u32) -> Option<FileKind> {
    if mode & 0xf000 == 0x4000 {
        Some(FileKind::Directory)
    } else if mode & 0xf000 == 0x8000 {
        Some(FileKind::Regular)
    } else if mode & 0xf000 == 0xa000 {
        Some(FileKind::Symlink)
    } else {
        None
    }
}

/// Reads the file type out of full mode bits.
pub fn file_kind_of_mode(mode: u32) -> (r: Option<FileKind>)
    ensures
        r == spec_file_kind(mode),
{
    let nibble = mode & 0xf000;
    if nibble == 0x4000 {
        Some(FileKind::Directory)
    } else if nibble == 0x8000 {
        Some(FileKind::Regular)
    } else if nibble == 0xa000 {
        Some(FileKind::Symlink)
    } else {
        None
    }
}

/// Everything that can go wrong in the library's own logic.
#[derive(Debug)]
pub enum MeowError {
    /// The archive does not start with the container magic.
    BadMagic,
    /// A header field extends past the end of the input.
    Truncated,
    /// A header string field is not valid UTF-8.
    BadUtf8,
    /// The compression tag after the manifest is not recognised; carries
    /// the four tag bytes that were found.
    UnknownCompression { tag: Vec<u8> },
    /// A package file name does not end in `.mz`.
    BadExtension,
    /// An encoded form would not fit in this machine's address space.
    TooLarge,
    /// The compressor refused the payload.
    CompressFailed,
    /// The compressed payload is not a valid stream.
    DecompressFailed,
    /// The decompressed payload does not hold exactly the bytes the
    /// manifest announces.
    PayloadMismatch,
    /// The signer refused to produce a signature.
    SignFailed,
    /// The appended signature region is not valid UTF-8.
    BadSignatureEncoding,
    /// No trusted key validates the appended signature.
    SignatureRejected,
    /// Dependencies of the package are not installed.
    MissingDependencies { missing: Vec<String> },
    /// The package is already installed and overwriting was not asked for.
    AlreadyInstalled { name: String },
    /// The named package is not installed.
    NotInstalled { name: String },
    /// Installed packages still depend on the one to be removed.
    HasDependents { name: String, dependents: Vec<String> },
    /// A path of the incoming package is already owned by another package.
    ConflictOwned { path: String, owner: String },
    /// The on-disk file type at a path does not match the incoming entry.
    ConflictKind { path: String, expected: FileKind },
    /// A manifest entry's mode bits name no supported file type.
    InvalidEntryMode { path: String },
    /// The manifest ships the same path twice; carries the path.
    DuplicatePath { path: String },
    /// A requested package does not exist in the index.
    MissingPackage { name: String },
}

} // verus!
