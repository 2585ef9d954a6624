//! The per-path row of the files table: what was installed at a path and
//! which package owns it, with its binary row encoding.

use vstd::prelude::*;
use vstd::utf8::encode_utf8;

use crate::codec::{be32, be32_val, be64, be64_val, lp_str, push_lp_str, push_u32_be, push_u64_be};
use crate::errors::MeowError;
use crate::meowzip::{take_lp_str, take_u32, take_u64, MeowZipEntry, Parsed};

verus! {

/// One row of the files table: the attributes last installed at a path
/// and the name of the owning package.
pub struct FileRecord {
    pub size: u64,
    pub mode: u32,
    pub uid: u32,
    pub gid: u32,
    pub checksum: u64,
    /// Name of the package that owns this file or symlink.
    pub package: String,
}

/// The mathematical value of a files-table row.
#[verifier::ext_equal]
pub struct RecordV {
    pub size: u64,
    pub mode: u32,
    pub uid: u32,
    pub gid: u32,
    pub checksum: u64,
    pub package: Seq<char>,
}

impl View for FileRecord {
    type V = RecordV;

    open spec fn view(&self) -> RecordV {
        RecordV {
            size: self.size,
            mode: self.mode,
            uid: self.uid,
            gid: self.gid,
            checksum: self.checksum,
            package: self.package@,
        }
    }
}

impl Clone for FileRecord {
    fn clone(&self) -> (r: Self)
        ensures
            r@ == self@,
    {
        FileRecord {
            size: self.size,
            mode: self.mode,
            uid: self.uid,
            gid: self.gid,
            checksum: self.checksum,
            package: self.package.clone(),
        }
    }
}

/// The row value a manifest entry installs, before an owner is set.
pub open spec fn spec_record_of(e: crate::meowzip::EntryV, package: Seq<char>) -> RecordV {
    RecordV {
        size: e.size,
        mode: e.mode,
        uid: e.uid,
        gid: e.gid,
        checksum: e.checksum,
        package,
    }
}

impl FileRecord {
    /// The row for a manifest entry, owner left empty.
    pub fn from_entry(e: &MeowZipEntry) -> (r: FileRecord)
        ensures
            r@ == spec_record_of(e@, Seq::<char>::empty()),
    {
        FileRecord {
            size: e.size,
            mode: e.mode,
            uid: e.uid,
            gid: e.gid,
            checksum: e.checksum,
            package: String::new(),
        }
    }

    /// The same row with the owning package set.
    pub fn with_package(self, package: String) -> (r: Self)
        ensures
            r@ == (RecordV { package: package@, ..self@ }),
    {
        FileRecord { package, ..self }
    }
}

// ---------------------------------------------------------------------------
// Row encoding
// ---------------------------------------------------------------------------

/// The byte form of a files-table row.
pub open spec fn enc_record(r: RecordV) -> Seq<u8> {
    be64(r.size) + be32(r.mode) + be32(r.uid) + be32(r.gid) + be64(r.checksum) + lp_str(r.package)
}

/// Serialises a row for the files table.
pub fn encode_record(rec: &FileRecord) -> (r: Vec<u8>)
    ensures
        r@ == enc_record(rec@),
{
    let mut out: Vec<u8> = Vec::new();
    push_u64_be(&mut out, rec.size);
    push_u32_be(&mut out, rec.mode);
    push_u32_be(&mut out, rec.uid);
    push_u32_be(&mut out, rec.gid);
    push_u64_be(&mut out, rec.checksum);
    push_lp_str(&mut out, rec.package.as_str());
    proof {
        assert(out@ =~= enc_record(rec@));
    }
    out
}

/// How row bytes read back: the row and the position after it, or
/// nothing for a short or malformed row.
pub open spec fn parse_record(b: Seq<u8>) -> Option<RecordV> {
    match take_u64(b, 0) {
        Parsed::Found(size, p1) => match take_u32(b, p1) {
            Parsed::Found(mode, p2) => match take_u32(b, p2) {
                Parsed::Found(uid, p3) => match take_u32(b, p3) {
                    Parsed::Found(gid, p4) => match take_u64(b, p4) {
                        Parsed::Found(checksum, p5) => match take_lp_str(b, p5) {
                            Parsed::Found(package, p6) => {
                                if p6 == b.len() {
                                    Some(RecordV { size, mode, uid, gid, checksum, package })
                                } else {
                                    None
                                }
                            },
                            _ => None,
                        },
                        _ => None,
                    },
                    _ => None,
                },
                _ => None,
            },
            _ => None,
        },
        _ => None,
    }
}

/// Parses a files-table row; the whole input must be one row.
pub fn decode_record(bytes: &[u8]) -> (r: Result<FileRecord, MeowError>)
    ensures
        (parse_record(bytes@) matches Some(v) ==> (r matches Ok(rec) && rec@ == v)),
        parse_record(bytes@) is None ==> r is Err,
{
    let (size, p1) = match crate::codec::read_u64_be(bytes, 0) {
        Some(x) => x,
        None => {
            return Err(MeowError::Truncated);
        },
    };
    let (mode, p2) = match crate::codec::read_u32_be(bytes, p1) {
        Some(x) => x,
        None => {
            return Err(MeowError::Truncated);
        },
    };
    let (uid, p3) = match crate::codec::read_u32_be(bytes, p2) {
        Some(x) => x,
        None => {
            return Err(MeowError::Truncated);
        },
    };
    let (gid, p4) = match crate::codec::read_u32_be(bytes, p3) {
        Some(x) => x,
        None => {
            return Err(MeowError::Truncated);
        },
    };
    let (checksum, p5) = match crate::codec::read_u64_be(bytes, p4) {
        Some(x) => x,
        None => {
            return Err(MeowError::Truncated);
        },
    };
    let (n, p6) = match crate::codec::read_u64_be(bytes, p5) {
        Some(x) => x,
        None => {
            return Err(MeowError::Truncated);
        },
    };
    if n > (bytes.len() - p6) as u64 {
        return Err(MeowError::Truncated);
    }
    let nu: usize = n as usize;
    let mut raw: Vec<u8> = Vec::new();
    raw.extend_from_slice(&bytes[p6..p6 + nu]);
    let p7 = p6 + nu;
    proof {
        assert(raw@ == bytes@.subrange(p6 as int, p6 as int + n as int));
    }
    let package = match crate::strutil::string_from_utf8(raw) {
        Some(s) => s,
        None => {
            return Err(MeowError::BadUtf8);
        },
    };
    if p7 != bytes.len() {
        return Err(MeowError::Truncated);
    }
    let rec = FileRecord { size, mode, uid, gid, checksum, package };
    proof {
        if let Some(v) = parse_record(bytes@) {
            assert(rec@ =~= v);
        }
    }
    Ok(rec)
}

/// Round trip of the row encoding: a row reads back exactly.
pub proof fn lemma_record_round_trip(r: RecordV)
    requires
        encode_utf8(r.package).len() <= u64::MAX,
    ensures
        parse_record(enc_record(r)) == Some(r),
{
    broadcast use vstd::utf8::encode_utf8_valid_utf8, vstd::utf8::encode_utf8_decode_utf8;

    let b = enc_record(r);
    crate::codec::lemma_be64_round_trip(r.size);
    crate::codec::lemma_be32_round_trip(r.mode);
    crate::codec::lemma_be32_round_trip(r.uid);
    crate::codec::lemma_be32_round_trip(r.gid);
    crate::codec::lemma_be64_round_trip(r.checksum);
    crate::codec::lemma_be64_round_trip(encode_utf8(r.package).len() as u64);
    assert(b.subrange(0, 8) =~= be64(r.size));
    assert(b.subrange(8, 12) =~= be32(r.mode));
    assert(b.subrange(12, 16) =~= be32(r.uid));
    assert(b.subrange(16, 20) =~= be32(r.gid));
    assert(b.subrange(20, 28) =~= be64(r.checksum));
    assert(b.subrange(28, 36) =~= be64(encode_utf8(r.package).len() as u64));
    assert(b.subrange(36, b.len() as int) =~= encode_utf8(r.package));
    if let Some(v) = parse_record(b) {
        assert(v =~= r);
    }
}

} // verus!
