//! Content checksums of archive entries, and the construction of manifest
//! entries with the checksum rules of the format: regular files carry the
//! digest of their contents, directories and symlinks carry zero.

use vstd::prelude::*;
use vstd::string::StringSliceAdditionalSpecFns;

use crate::meowzip::MeowZipEntry;

verus! {

/// What `xxhash_rust::xxh3::xxh3_64` returns for a byte string: a digest
/// that depends on the bytes alone.
pub uninterp spec fn xxh3_of(data: Seq<u8>) -> u64;

/// Relies on `xxhash_rust::xxh3::xxh3_64`: the 64-bit XXH3 digest of the
/// input, a function of the input bytes alone.
#[verifier::external_body]
fn xxh3_64(data: &[u8]) -> (r: u64)
    ensures
        r == xxh3_of(data@),
{
    xxhash_rust::xxh3::xxh3_64(data)
}

/// The content checksum stored for a regular file's bytes.
pub fn checksum_bytes(data: &[u8]) -> (r: u64)
    ensures
        r == xxh3_of(data@),
{
    xxh3_64(data)
}

/// A manifest entry for a regular file: its size and checksum come from
/// the content bytes.
pub fn entry_for_regular(
    filepath: String,
    contents: &[u8],
    mode: u32,
    uid: u32,
    gid: u32,
) -> (r: MeowZipEntry)
    requires
        contents@.len() <= u64::MAX,
    ensures
        r.filepath == filepath,
        r.size == contents@.len(),
        r.mode == mode,
        r.uid == uid,
        r.gid == gid,
        r.checksum == xxh3_of(contents@),
{
    let checksum = xxh3_64(contents);
    MeowZipEntry { filepath, size: contents.len() as u64, mode, uid, gid, checksum }
}

/// A manifest entry for a symlink: its size is the byte length of the
/// link target, and its checksum is zero.
pub fn entry_for_symlink(filepath: String, target: &str, mode: u32, uid: u32, gid: u32) -> (r:
    MeowZipEntry)
    ensures
        r.filepath == filepath,
        r.size == vstd::utf8::encode_utf8(target@).len(),
        r.mode == mode,
        r.uid == uid,
        r.gid == gid,
        r.checksum == 0,
{
    let bl = target.as_bytes().len();
    MeowZipEntry { filepath, size: bl as u64, mode, uid, gid, checksum: 0 }
}

/// A manifest entry for a directory: size and checksum are zero.
pub fn entry_for_directory(filepath: String, mode: u32, uid: u32, gid: u32) -> (r: MeowZipEntry)
    ensures
        r.filepath == filepath,
        r.size == 0,
        r.mode == mode,
        r.uid == uid,
        r.gid == gid,
        r.checksum == 0,
{
    MeowZipEntry { filepath, size: 0, mode, uid, gid, checksum: 0 }
}

} // verus!
