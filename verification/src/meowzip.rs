//! The meowzip container header: the package metadata block and file
//! manifest that sit between the `MEOW` magic and the `ZSTD` compression
//! tag, with its parser, its encoder, and their round trip.

use vstd::prelude::*;
use vstd::utf8::*;

use crate::codec::{be32, be32_val, be64, be64_val, lp_bytes, lp_str, push_lp_bytes, push_lp_str,
    push_u32_be, push_u64_be, read_u32_be, read_u64_be};
use crate::errors::MeowError;
use crate::strutil::{join_commas, parse_depends_chars, split_depends, join_depends, wf_dep_name,
    lemma_depends_round_trip};

verus! {

// ---------------------------------------------------------------------------
// Data model
// ---------------------------------------------------------------------------

/// One path of a package: its location, payload size, mode bits with the
/// file-type nibble, numeric owner, and content checksum.
pub struct MeowZipEntry {
    pub filepath: String,
    pub size: u64,
    pub mode: u32,
    pub uid: u32,
    pub gid: u32,
    pub checksum: u64,
}

/// The metadata block at the head of each archive, also stored in the
/// package table of the installed-package database.
pub struct MeowZipMetadata {
    pub name: String,
    pub version: String,
    pub release: u64,
    pub depends: Vec<String>,
    pub packager: String,
    pub license: String,
    pub pre_install: Vec<u8>,
    pub post_install: Vec<u8>,
    pub pre_remove: Vec<u8>,
    pub post_remove: Vec<u8>,
    pub filelist: Vec<MeowZipEntry>,
}

/// The mathematical value of a manifest entry.
#[verifier::ext_equal]
pub struct EntryV {
    pub path: Seq<char>,
    pub size: u64,
    pub mode: u32,
    pub uid: u32,
    pub gid: u32,
    pub checksum: u64,
}

/// The mathematical value of a metadata block.
#[verifier::ext_equal]
pub struct MetaV {
    pub name: Seq<char>,
    pub version: Seq<char>,
    pub release: u64,
    pub depends: Seq<Seq<char>>,
    pub packager: Seq<char>,
    pub license: Seq<char>,
    pub pre_install: Seq<u8>,
    pub post_install: Seq<u8>,
    pub pre_remove: Seq<u8>,
    pub post_remove: Seq<u8>,
    pub filelist: Seq<EntryV>,
}

impl View for MeowZipEntry {
    type V = EntryV;

    open spec fn view(&self) -> EntryV {
        EntryV {
            path: self.filepath@,
            size: self.size,
            mode: self.mode,
            uid: self.uid,
            gid: self.gid,
            checksum: self.checksum,
        }
    }
}

impl View for MeowZipMetadata {
    type V = MetaV;

    open spec fn view(&self) -> MetaV {
        MetaV {
            name: self.name@,
            version: self.version@,
            release: self.release,
            depends: self.depends.deep_view(),
            packager: self.packager@,
            license: self.license@,
            pre_install: self.pre_install@,
            post_install: self.post_install@,
            pre_remove: self.pre_remove@,
            post_remove: self.post_remove@,
            filelist: Seq::new(self.filelist@.len(), |i: int| self.filelist@[i]@),
        }
    }
}

impl Clone for MeowZipEntry {
    fn clone(&self) -> (r: Self)
        ensures
            r@ == self@,
    {
        MeowZipEntry {
            filepath: self.filepath.clone(),
            size: self.size,
            mode: self.mode,
            uid: self.uid,
            gid: self.gid,
            checksum: self.checksum,
        }
    }
}

fn clone_string_vec(v: &Vec<String>) -> (r: Vec<String>)
    ensures
        r.deep_view() == v.deep_view(),
{
    let mut out: Vec<String> = Vec::new();
    let n = v.len();
    for i in 0..n
        invariant
            n == v@.len(),
            out@.len() == i,
            forall|k: int| 0 <= k < i ==> (#[trigger] out@[k])@ == v@[k]@,
        decreases n - i,
    {
        out.push(v[i].clone());
    }
    proof {
        assert(out.deep_view() =~~= v.deep_view());
    }
    out
}

fn clone_bytes(v: &Vec<u8>) -> (r: Vec<u8>)
    ensures
        r@ == v@,
{
    let mut out: Vec<u8> = Vec::new();
    out.extend_from_slice(v.as_slice());
    proof {
        assert(out@ =~= v@);
    }
    out
}

fn clone_entries(v: &Vec<MeowZipEntry>) -> (r: Vec<MeowZipEntry>)
    ensures
        entries_view(r@) == entries_view(v@),
{
    let mut out: Vec<MeowZipEntry> = Vec::new();
    let n = v.len();
    for i in 0..n
        invariant
            n == v@.len(),
            out@.len() == i,
            forall|k: int| 0 <= k < i ==> (#[trigger] out@[k])@ == v@[k]@,
        decreases n - i,
    {
        out.push(v[i].clone());
    }
    proof {
        assert(entries_view(out@) =~= entries_view(v@));
    }
    out
}

impl Clone for MeowZipMetadata {
    fn clone(&self) -> (r: Self)
        ensures
            r@ == self@,
    {
        let r = MeowZipMetadata {
            name: self.name.clone(),
            version: self.version.clone(),
            release: self.release,
            depends: clone_string_vec(&self.depends),
            packager: self.packager.clone(),
            license: self.license.clone(),
            pre_install: clone_bytes(&self.pre_install),
            post_install: clone_bytes(&self.post_install),
            pre_remove: clone_bytes(&self.pre_remove),
            post_remove: clone_bytes(&self.post_remove),
            filelist: clone_entries(&self.filelist),
        };
        proof {
            assert(r@ =~= self@);
        }
        r
    }
}

// ---------------------------------------------------------------------------
// Wire-format specification: parsing
// ---------------------------------------------------------------------------

pub open spec fn magic_meow() -> Seq<u8> {
    seq![0x4du8, 0x45u8, 0x4fu8, 0x57u8]
}

pub open spec fn magic_zstd() -> Seq<u8> {
    seq![0x5au8, 0x53u8, 0x54u8, 0x44u8]
}

/// Outcome of reading one field at a position: the value with the
/// position after it, a short input, or malformed content.
pub enum Parsed<T> {
    Found(T, int),
    Short,
    Invalid,
}

pub open spec fn take_u64(b: Seq<u8>, pos: int) -> Parsed<u64> {
    if pos + 8 <= b.len() {
        Parsed::Found(be64_val(b.subrange(pos, pos + 8)), pos + 8)
    } else {
        Parsed::Short
    }
}

pub open spec fn take_u32(b: Seq<u8>, pos: int) -> Parsed<u32> {
    if pos + 4 <= b.len() {
        Parsed::Found(be32_val(b.subrange(pos, pos + 4)), pos + 4)
    } else {
        Parsed::Short
    }
}

pub open spec fn take_lp_bytes(b: Seq<u8>, pos: int) -> Parsed<Seq<u8>> {
    match take_u64(b, pos) {
        Parsed::Found(n, p) => {
            if p + n <= b.len() {
                Parsed::Found(b.subrange(p, p + n), p + n)
            } else {
                Parsed::Short
            }
        },
        _ => Parsed::Short,
    }
}

pub open spec fn take_lp_str(b: Seq<u8>, pos: int) -> Parsed<Seq<char>> {
    match take_lp_bytes(b, pos) {
        Parsed::Found(raw, p) => {
            if valid_utf8(raw) {
                Parsed::Found(decode_utf8(raw), p)
            } else {
                Parsed::Invalid
            }
        },
        _ => Parsed::Short,
    }
}

pub open spec fn take_magic(b: Seq<u8>, pos: int, m: Seq<u8>) -> Parsed<()> {
    if pos + m.len() <= b.len() {
        if b.subrange(pos, pos + m.len()) == m {
            Parsed::Found((), pos + m.len())
        } else {
            Parsed::Invalid
        }
    } else {
        Parsed::Short
    }
}

pub open spec fn take_entry(b: Seq<u8>, pos: int) -> Parsed<EntryV> {
    match take_lp_str(b, pos) {
        Parsed::Found(path, p1) => match take_u64(b, p1) {
            Parsed::Found(size, p2) => match take_u32(b, p2) {
                Parsed::Found(mode, p3) => match take_u32(b, p3) {
                    Parsed::Found(uid, p4) => match take_u32(b, p4) {
                        Parsed::Found(gid, p5) => match take_u64(b, p5) {
                            Parsed::Found(checksum, p6) => Parsed::Found(
                                EntryV { path, size, mode, uid, gid, checksum },
                                p6,
                            ),
                            _ => Parsed::Short,
                        },
                        _ => Parsed::Short,
                    },
                    _ => Parsed::Short,
                },
                _ => Parsed::Short,
            },
            _ => Parsed::Short,
        },
        Parsed::Short => Parsed::Short,
        Parsed::Invalid => Parsed::Invalid,
    }
}

pub open spec fn take_entries(b: Seq<u8>, pos: int, n: nat) -> Parsed<Seq<EntryV>>
    decreases n,
{
    if n == 0 {
        Parsed::Found(Seq::empty(), pos)
    } else {
        match take_entry(b, pos) {
            Parsed::Found(e, p) => match take_entries(b, p, (n - 1) as nat) {
                Parsed::Found(es, p2) => Parsed::Found(seq![e] + es, p2),
                Parsed::Short => Parsed::Short,
                Parsed::Invalid => Parsed::Invalid,
            },
            Parsed::Short => Parsed::Short,
            Parsed::Invalid => Parsed::Invalid,
        }
    }
}

/// Outcome of parsing a whole archive header.
pub enum HeaderParse {
    /// The metadata and the position just after the compression tag,
    /// where the compressed payload starts.
    Found(MetaV, int),
    /// The input ends inside a field.
    Short,
    /// The input does not start with the container magic.
    BadMagic,
    /// A string field is not valid UTF-8.
    BadUtf8,
    /// An unrecognised compression tag; carries its four bytes.
    BadTag(Seq<u8>),
}

/// The whole header grammar, from the container magic through the
/// compression tag.
pub open spec fn parse_header(b: Seq<u8>) -> HeaderParse {
    match take_magic(b, 0, magic_meow()) {
        Parsed::Short => HeaderParse::Short,
        Parsed::Invalid => HeaderParse::BadMagic,
        Parsed::Found(_, p0) => match take_lp_str(b, p0) {
            Parsed::Short => HeaderParse::Short,
            Parsed::Invalid => HeaderParse::BadUtf8,
            Parsed::Found(name, p1) => match take_lp_str(b, p1) {
                Parsed::Short => HeaderParse::Short,
                Parsed::Invalid => HeaderParse::BadUtf8,
                Parsed::Found(version, p2) => match take_u64(b, p2) {
                    Parsed::Short => HeaderParse::Short,
                    Parsed::Invalid => HeaderParse::Short,
                    Parsed::Found(release, p3) => match take_lp_str(b, p3) {
                        Parsed::Short => HeaderParse::Short,
                        Parsed::Invalid => HeaderParse::BadUtf8,
                        Parsed::Found(packager, p4) => match take_lp_str(b, p4) {
                            Parsed::Short => HeaderParse::Short,
                            Parsed::Invalid => HeaderParse::BadUtf8,
                            Parsed::Found(license, p5) => match take_lp_str(b, p5) {
                                Parsed::Short => HeaderParse::Short,
                                Parsed::Invalid => HeaderParse::BadUtf8,
                                Parsed::Found(dep_str, p6) => parse_header_hooks(
                                    b,
                                    p6,
                                    name,
                                    version,
                                    release,
                                    packager,
                                    license,
                                    dep_str,
                                ),
                            },
                        },
                    },
                },
            },
        },
    }
}

/// Continuation of [`parse_header`]: the four hook blobs, the file
/// manifest, and the compression tag.
pub open spec fn parse_header_hooks(
    b: Seq<u8>,
    pos: int,
    name: Seq<char>,
    version: Seq<char>,
    release: u64,
    packager: Seq<char>,
    license: Seq<char>,
    dep_str: Seq<char>,
) -> HeaderParse {
    match take_lp_bytes(b, pos) {
        Parsed::Short => HeaderParse::Short,
        Parsed::Invalid => HeaderParse::Short,
        Parsed::Found(pre_install, p7) => match take_lp_bytes(b, p7) {
            Parsed::Short => HeaderParse::Short,
            Parsed::Invalid => HeaderParse::Short,
            Parsed::Found(post_install, p8) => match take_lp_bytes(b, p8) {
                Parsed::Short => HeaderParse::Short,
                Parsed::Invalid => HeaderParse::Short,
                Parsed::Found(pre_remove, p9) => match take_lp_bytes(b, p9) {
                    Parsed::Short => HeaderParse::Short,
                    Parsed::Invalid => HeaderParse::Short,
                    Parsed::Found(post_remove, p10) => match take_u64(b, p10) {
                        Parsed::Short => HeaderParse::Short,
                        Parsed::Invalid => HeaderParse::Short,
                        Parsed::Found(count, p11) => match take_entries(b, p11, count as nat) {
                            Parsed::Short => HeaderParse::Short,
                            Parsed::Invalid => HeaderParse::BadUtf8,
                            Parsed::Found(filelist, p12) => match take_magic(
                                b,
                                p12,
                                magic_zstd(),
                            ) {
                                Parsed::Short => HeaderParse::Short,
                                Parsed::Invalid => HeaderParse::BadTag(
                                    b.subrange(p12, p12 + 4),
                                ),
                                Parsed::Found(_, p13) => HeaderParse::Found(
                                    MetaV {
                                        name,
                                        version,
                                        release,
                                        depends: parse_depends_chars(dep_str),
                                        packager,
                                        license,
                                        pre_install,
                                        post_install,
                                        pre_remove,
                                        post_remove,
                                        filelist,
                                    },
                                    p13,
                                ),
                            },
                        },
                    },
                },
            },
        },
    }
}

// ---------------------------------------------------------------------------
// Wire-format specification: encoding
// ---------------------------------------------------------------------------

pub open spec fn enc_entry(e: EntryV) -> Seq<u8> {
    lp_str(e.path) + be64(e.size) + be32(e.mode) + be32(e.uid) + be32(e.gid) + be64(e.checksum)
}

pub open spec fn enc_entries(es: Seq<EntryV>) -> Seq<u8>
    decreases es.len(),
{
    if es.len() == 0 {
        Seq::empty()
    } else {
        enc_entry(es[0]) + enc_entries(es.drop_first())
    }
}

/// The encoded header of a metadata block: what [`parse_header`] reads
/// back. The dependency list is stored comma-joined.
pub open spec fn enc_header(m: MetaV) -> Seq<u8> {
    magic_meow() + lp_str(m.name) + lp_str(m.version) + be64(m.release) + lp_str(m.packager)
        + lp_str(m.license) + lp_str(join_commas(m.depends)) + lp_bytes(m.pre_install) + lp_bytes(
    m.post_install) + lp_bytes(m.pre_remove) + lp_bytes(m.post_remove) + be64(
        m.filelist.len() as u64,
    ) + enc_entries(m.filelist) + magic_zstd()
}

// ---------------------------------------------------------------------------
// Executable readers
// ---------------------------------------------------------------------------

/// The view of a manifest-entry vector.
pub open spec fn entries_view(v: Seq<MeowZipEntry>) -> Seq<EntryV> {
    Seq::new(v.len(), |i: int| v[i]@)
}

fn read_lp_bytes(bytes: &[u8], pos: usize) -> (r: Option<(Vec<u8>, usize)>)
    ensures
        (take_lp_bytes(bytes@, pos as int) matches Parsed::Found(d, p) ==> (r matches Some(v)
            && v.0@ == d && v.1 == p)),
        take_lp_bytes(bytes@, pos as int) is Short ==> r is None,
{
    let (n, p) = match read_u64_be(bytes, pos) {
        Some(x) => x,
        None => {
            return None;
        },
    };
    if n > (bytes.len() - p) as u64 {
        return None;
    }
    let nu: usize = n as usize;
    let mut v: Vec<u8> = Vec::new();
    v.extend_from_slice(&bytes[p..p + nu]);
    Some((v, p + nu))
}

pub(crate) enum LpStrRead {
    Got(String, usize),
    Short,
    Bad,
}

pub(crate) fn read_lp_str(bytes: &[u8], pos: usize) -> (r: LpStrRead)
    ensures
        (take_lp_str(bytes@, pos as int) matches Parsed::Found(sv, p) ==> (r matches LpStrRead::Got(
            s,
            q,
        ) && s@ == sv && q == p)),
        take_lp_str(bytes@, pos as int) is Short ==> r is Short,
        take_lp_str(bytes@, pos as int) is Invalid ==> r is Bad,
{
    let (v, p) = match read_lp_bytes(bytes, pos) {
        Some(x) => x,
        None => {
            return LpStrRead::Short;
        },
    };
    match crate::strutil::string_from_utf8(v) {
        Some(s) => LpStrRead::Got(s, p),
        None => LpStrRead::Bad,
    }
}

enum MagicRead {
    At(usize),
    Short,
    No,
}

fn read_magic(bytes: &[u8], pos: usize, m0: u8, m1: u8, m2: u8, m3: u8) -> (r: MagicRead)
    ensures
        (take_magic(bytes@, pos as int, seq![m0, m1, m2, m3]) matches Parsed::Found(_, p) ==> (
        r matches MagicRead::At(q) && q == p)),
        take_magic(bytes@, pos as int, seq![m0, m1, m2, m3]) is Short ==> r is Short,
        take_magic(bytes@, pos as int, seq![m0, m1, m2, m3]) is Invalid ==> r is No,
{
    let ghost m = seq![m0, m1, m2, m3];
    if bytes.len() < 4 || pos > bytes.len() - 4 {
        return MagicRead::Short;
    }
    proof {
        assert(bytes@.subrange(pos as int, pos as int + 4) =~= seq![
            bytes@[pos as int],
            bytes@[pos as int + 1],
            bytes@[pos as int + 2],
            bytes@[pos as int + 3],
        ]);
    }
    if bytes[pos] == m0 && bytes[pos + 1] == m1 && bytes[pos + 2] == m2 && bytes[pos + 3] == m3 {
        proof {
            assert(bytes@.subrange(pos as int, pos as int + 4) =~= m);
        }
        MagicRead::At(pos + 4)
    } else {
        proof {
            assert(bytes@.subrange(pos as int, pos as int + 4) != m);
        }
        MagicRead::No
    }
}

enum EntryRead {
    Got(MeowZipEntry, usize),
    Short,
    Bad,
}

fn read_entry(bytes: &[u8], pos: usize) -> (r: EntryRead)
    ensures
        (take_entry(bytes@, pos as int) matches Parsed::Found(ev, p) ==> (r matches EntryRead::Got(
            e,
            q,
        ) && e@ == ev && q == p)),
        take_entry(bytes@, pos as int) is Short ==> r is Short,
        take_entry(bytes@, pos as int) is Invalid ==> r is Bad,
{
    let (filepath, p1) = match read_lp_str(bytes, pos) {
        LpStrRead::Got(s, p) => (s, p),
        LpStrRead::Short => {
            return EntryRead::Short;
        },
        LpStrRead::Bad => {
            return EntryRead::Bad;
        },
    };
    let (size, p2) = match read_u64_be(bytes, p1) {
        Some(x) => x,
        None => {
            return EntryRead::Short;
        },
    };
    let (mode, p3) = match read_u32_be(bytes, p2) {
        Some(x) => x,
        None => {
            return EntryRead::Short;
        },
    };
    let (uid, p4) = match read_u32_be(bytes, p3) {
        Some(x) => x,
        None => {
            return EntryRead::Short;
        },
    };
    let (gid, p5) = match read_u32_be(bytes, p4) {
        Some(x) => x,
        None => {
            return EntryRead::Short;
        },
    };
    let (checksum, p6) = match read_u64_be(bytes, p5) {
        Some(x) => x,
        None => {
            return EntryRead::Short;
        },
    };
    let e = MeowZipEntry { filepath, size, mode, uid, gid, checksum };
    EntryRead::Got(e, p6)
}

fn read_entry_list(bytes: &[u8], pos0: usize, count: u64) -> (r: Result<
    (Vec<MeowZipEntry>, usize),
    MeowError,
>)
    ensures
        (take_entries(bytes@, pos0 as int, count as nat) matches Parsed::Found(es, p) ==> (
        r matches Ok(v) && entries_view(v.0@) == es && v.1 == p)),
        take_entries(bytes@, pos0 as int, count as nat) is Short ==> (r matches Err(e)
            && e is Truncated),
        take_entries(bytes@, pos0 as int, count as nat) is Invalid ==> (r matches Err(e)
            && e is BadUtf8),
{
    let mut filelist: Vec<MeowZipEntry> = Vec::new();
    let mut pos: usize = pos0;
    let mut i: u64 = 0;
    proof {
        assert(entries_view(filelist@) =~= Seq::<EntryV>::empty());
    }
    while i < count
        invariant
            0 <= i <= count,
            filelist@.len() == i,
            take_entries(bytes@, pos0 as int, count as nat) == (match take_entries(
                bytes@,
                pos as int,
                (count - i) as nat,
            ) {
                Parsed::Found(es, p) => Parsed::Found(entries_view(filelist@) + es, p),
                Parsed::Short => Parsed::<Seq<EntryV>>::Short,
                Parsed::Invalid => Parsed::<Seq<EntryV>>::Invalid,
            }),
        decreases count - i,
    {
        let ghost fl_before = entries_view(filelist@);
        match read_entry(bytes, pos) {
            EntryRead::Got(e, p) => {
                proof {
                    let rest_n = (count - i) as nat;
                    assert(take_entries(bytes@, pos as int, rest_n) == (
                    match take_entries(bytes@, p as int, (rest_n - 1) as nat) {
                        Parsed::Found(es, q) => Parsed::Found(seq![e@] + es, q),
                        Parsed::Short => Parsed::<Seq<EntryV>>::Short,
                        Parsed::Invalid => Parsed::<Seq<EntryV>>::Invalid,
                    }));
                }
                filelist.push(e);
                pos = p;
                proof {
                    assert(entries_view(filelist@) =~= fl_before.push(e@));
                    if let Parsed::Found(es, q) = take_entries(
                        bytes@,
                        pos as int,
                        (count - i - 1) as nat,
                    ) {
                        assert(fl_before + (seq![e@] + es) =~= fl_before.push(e@) + es);
                    }
                }
            },
            EntryRead::Short => {
                return Err(MeowError::Truncated);
            },
            EntryRead::Bad => {
                return Err(MeowError::BadUtf8);
            },
        }
        i = i + 1;
    }
    proof {
        assert(entries_view(filelist@) + Seq::<EntryV>::empty() =~= entries_view(filelist@));
    }
    Ok((filelist, pos))
}

/// Parses the archive header from the start of `bytes`. On success the
/// returned position is where the compressed payload begins, just after
/// the compression tag; the result mirrors [`parse_header`] case by case.
#[verifier::rlimit(60)]
pub fn read_metadata(bytes: &[u8]) -> (r: Result<(MeowZipMetadata, usize), MeowError>)
    ensures
        (parse_header(bytes@) matches HeaderParse::Found(m, p) ==> (r matches Ok(v) && v.0@ == m
            && v.1 == p)),
        parse_header(bytes@) is Short ==> (r matches Err(e) && e is Truncated),
        parse_header(bytes@) is BadMagic ==> (r matches Err(e) && e is BadMagic),
        parse_header(bytes@) is BadUtf8 ==> (r matches Err(e) && e is BadUtf8),
        (parse_header(bytes@) matches HeaderParse::BadTag(t) ==> (r matches Err(e)
            && e matches MeowError::UnknownCompression { tag } && tag@ == t)),
{
    let p0 = match read_magic(bytes, 0, 0x4d, 0x45, 0x4f, 0x57) {
        MagicRead::At(p) => p,
        MagicRead::Short => {
            return Err(MeowError::Truncated);
        },
        MagicRead::No => {
            return Err(MeowError::BadMagic);
        },
    };
    let (name, p1) = match read_lp_str(bytes, p0) {
        LpStrRead::Got(s, p) => (s, p),
        LpStrRead::Short => {
            return Err(MeowError::Truncated);
        },
        LpStrRead::Bad => {
            return Err(MeowError::BadUtf8);
        },
    };
    let (version, p2) = match read_lp_str(bytes, p1) {
        LpStrRead::Got(s, p) => (s, p),
        LpStrRead::Short => {
            return Err(MeowError::Truncated);
        },
        LpStrRead::Bad => {
            return Err(MeowError::BadUtf8);
        },
    };
    let (release, p3) = match read_u64_be(bytes, p2) {
        Some(x) => x,
        None => {
            return Err(MeowError::Truncated);
        },
    };
    let (packager, p4) = match read_lp_str(bytes, p3) {
        LpStrRead::Got(s, p) => (s, p),
        LpStrRead::Short => {
            return Err(MeowError::Truncated);
        },
        LpStrRead::Bad => {
            return Err(MeowError::BadUtf8);
        },
    };
    let (license, p5) = match read_lp_str(bytes, p4) {
        LpStrRead::Got(s, p) => (s, p),
        LpStrRead::Short => {
            return Err(MeowError::Truncated);
        },
        LpStrRead::Bad => {
            return Err(MeowError::BadUtf8);
        },
    };
    let (dep_str, p6) = match read_lp_str(bytes, p5) {
        LpStrRead::Got(s, p) => (s, p),
        LpStrRead::Short => {
            return Err(MeowError::Truncated);
        },
        LpStrRead::Bad => {
            return Err(MeowError::BadUtf8);
        },
    };
    proof {
        assert(parse_header(bytes@) == parse_header_hooks(
            bytes@,
            p6 as int,
            name@,
            version@,
            release,
            packager@,
            license@,
            dep_str@,
        ));
    }
    let (pre_install, p7) = match read_lp_bytes(bytes, p6) {
        Some(x) => x,
        None => {
            return Err(MeowError::Truncated);
        },
    };
    let (post_install, p8) = match read_lp_bytes(bytes, p7) {
        Some(x) => x,
        None => {
            return Err(MeowError::Truncated);
        },
    };
    let (pre_remove, p9) = match read_lp_bytes(bytes, p8) {
        Some(x) => x,
        None => {
            return Err(MeowError::Truncated);
        },
    };
    let (post_remove, p10) = match read_lp_bytes(bytes, p9) {
        Some(x) => x,
        None => {
            return Err(MeowError::Truncated);
        },
    };
    let (count, p11) = match read_u64_be(bytes, p10) {
        Some(x) => x,
        None => {
            return Err(MeowError::Truncated);
        },
    };
    let (filelist, pos) = match read_entry_list(bytes, p11, count) {
        Ok(x) => x,
        Err(e) => {
            return Err(e);
        },
    };
    let p12 = pos;
    let p13 = match read_magic(bytes, p12, 0x5a, 0x53, 0x54, 0x44) {
        MagicRead::At(p) => p,
        MagicRead::Short => {
            return Err(MeowError::Truncated);
        },
        MagicRead::No => {
            let blen = bytes.len();
            proof {
                assert(take_magic(bytes@, p12 as int, magic_zstd()) is Invalid);
                assert(p12 + 4 <= blen);
            }
            let mut tag: Vec<u8> = Vec::new();
            tag.extend_from_slice(&bytes[p12..p12 + 4]);
            return Err(MeowError::UnknownCompression { tag });
        },
    };
    let depends = split_depends(dep_str.as_str());
    let meta = MeowZipMetadata {
        name,
        version,
        release,
        depends,
        packager,
        license,
        pre_install,
        post_install,
        pre_remove,
        post_remove,
        filelist,
    };
    proof {
        if let HeaderParse::Found(m, p) = parse_header(bytes@) {
            assert(meta@ =~= m);
        }
    }
    Ok((meta, p13))
}

// ---------------------------------------------------------------------------
// Executable encoder
// ---------------------------------------------------------------------------

proof fn lemma_enc_entries_push(es: Seq<EntryV>, e: EntryV)
    ensures
        enc_entries(es.push(e)) == enc_entries(es) + enc_entry(e),
    decreases es.len(),
{
    let p = es.push(e);
    if es.len() == 0 {
        assert(p[0] == e);
        assert(p.drop_first() =~= Seq::<EntryV>::empty());
        assert(enc_entries(p.drop_first()) == Seq::<u8>::empty());
        assert(enc_entries(p) == enc_entry(e) + Seq::<u8>::empty());
        assert(enc_entry(e) + Seq::<u8>::empty() =~= Seq::<u8>::empty() + enc_entry(e));
        assert(enc_entries(es) == Seq::<u8>::empty());
    } else {
        assert(p[0] == es[0]);
        assert(p.drop_first() =~= es.drop_first().push(e));
        lemma_enc_entries_push(es.drop_first(), e);
        assert(enc_entry(es[0]) + (enc_entries(es.drop_first()) + enc_entry(e)) =~= (enc_entry(
            es[0],
        ) + enc_entries(es.drop_first())) + enc_entry(e));
    }
}

fn encode_entry(out: &mut Vec<u8>, e: &MeowZipEntry)
    ensures
        final(out)@ == old(out)@ + enc_entry(e@),
{
    push_lp_str(out, e.filepath.as_str());
    push_u64_be(out, e.size);
    push_u32_be(out, e.mode);
    push_u32_be(out, e.uid);
    push_u32_be(out, e.gid);
    push_u64_be(out, e.checksum);
    proof {
        assert(out@ =~= old(out)@ + enc_entry(e@));
    }
}

/// Serialises a metadata block into the archive header bytes, container
/// magic through compression tag.
#[verifier::rlimit(60)]
pub fn encode_header(meta: &MeowZipMetadata) -> (r: Vec<u8>)
    ensures
        r@ == enc_header(meta@),
{
    let mut out: Vec<u8> = Vec::new();
    out.push(0x4d);
    out.push(0x45);
    out.push(0x4f);
    out.push(0x57);
    proof {
        assert(out@ =~= magic_meow());
    }
    push_lp_str(&mut out, meta.name.as_str());
    push_lp_str(&mut out, meta.version.as_str());
    push_u64_be(&mut out, meta.release);
    push_lp_str(&mut out, meta.packager.as_str());
    push_lp_str(&mut out, meta.license.as_str());
    let joined = join_depends(&meta.depends);
    push_lp_str(&mut out, joined.as_str());
    push_lp_bytes(&mut out, meta.pre_install.as_slice());
    push_lp_bytes(&mut out, meta.post_install.as_slice());
    push_lp_bytes(&mut out, meta.pre_remove.as_slice());
    push_lp_bytes(&mut out, meta.post_remove.as_slice());
    push_u64_be(&mut out, meta.filelist.len() as u64);
    let ghost head = out@;
    let n = meta.filelist.len();
    for i in 0..n
        invariant
            n == meta.filelist@.len(),
            out@ == head + enc_entries(entries_view(meta.filelist@).take(i as int)),
        decreases n - i,
    {
        encode_entry(&mut out, &meta.filelist[i]);
        proof {
            let ev = entries_view(meta.filelist@);
            assert(ev.take(i as int).push(ev[i as int]) =~= ev.take(i as int + 1));
            lemma_enc_entries_push(ev.take(i as int), ev[i as int]);
        }
    }
    proof {
        assert(entries_view(meta.filelist@).take(n as int) =~= entries_view(meta.filelist@));
    }
    out.push(0x5a);
    out.push(0x53);
    out.push(0x54);
    out.push(0x44);
    proof {
        assert(meta@.filelist == entries_view(meta.filelist@));
        assert(out@ =~= enc_header(meta@));
    }
    out
}

// ---------------------------------------------------------------------------
// File-name extension check
// ---------------------------------------------------------------------------

/// The path without its trailing slashes: path components ignore them,
/// so `a.mz/` names the same file as `a.mz`.
pub open spec fn drop_trailing_slashes(p: Seq<char>) -> Seq<char>
    decreases p.len(),
{
    if p.len() > 0 && p.last() == '/' {
        drop_trailing_slashes(p.drop_last())
    } else {
        p
    }
}

/// A path whose final component has the `.mz` extension: after trailing
/// slashes, it ends in `.mz` with at least one stem character before
/// the dot.
pub open spec fn has_mz_extension(p: Seq<char>) -> bool {
    let q = drop_trailing_slashes(p);
    &&& q.len() >= 4
    &&& q[q.len() - 3] == '.'
    &&& q[q.len() - 2] == 'm'
    &&& q[q.len() - 1] == 'z'
    &&& q[q.len() - 4] != '/'
}

proof fn lemma_drop_trailing_slashes_take(p: Seq<char>, j: int)
    requires
        0 <= j <= p.len(),
        forall|k: int| j <= k < p.len() ==> p[k] == '/',
        j > 0 ==> p[j - 1] != '/',
    ensures
        drop_trailing_slashes(p) == p.take(j),
    decreases p.len() - j,
{
    if j == p.len() {
        assert(p.take(j) =~= p);
    } else {
        assert(p.last() == '/');
        assert(p.drop_last() =~= p.take(p.len() - 1));
        lemma_drop_trailing_slashes_take(p.take(p.len() - 1), j);
        assert(p.take(p.len() - 1).take(j) =~= p.take(j));
    }
}

/// Rejects package file names that do not carry the `.mz` extension.
pub fn ensure_extension_is_mz(path: &str) -> (r: Result<(), MeowError>)
    ensures
        r is Ok <==> has_mz_extension(path@),
        r matches Err(e) ==> e is BadExtension,
{
    let n = path.unicode_len();
    let mut j: usize = n;
    while j > 0 && path.get_char(j - 1) == '/'
        invariant
            0 <= j <= n,
            n == path@.len(),
            forall|k: int| j <= k < n ==> path@[k] == '/',
        decreases j,
    {
        j = j - 1;
    }
    proof {
        lemma_drop_trailing_slashes_take(path@, j as int);
    }
    if j < 4 {
        return Err(MeowError::BadExtension);
    }
    if path.get_char(j - 3) == '.' && path.get_char(j - 2) == 'm' && path.get_char(j - 1) == 'z'
        && path.get_char(j - 4) != '/' {
        Ok(())
    } else {
        Err(MeowError::BadExtension)
    }
}

// ---------------------------------------------------------------------------
// Round trip: parsing an encoded header
// ---------------------------------------------------------------------------

/// The length side conditions under which a metadata value is encodable:
/// every variable-length field fits its 64-bit length prefix.
pub open spec fn meta_fits(m: MetaV) -> bool {
    &&& encode_utf8(m.name).len() <= u64::MAX
    &&& encode_utf8(m.version).len() <= u64::MAX
    &&& encode_utf8(m.packager).len() <= u64::MAX
    &&& encode_utf8(m.license).len() <= u64::MAX
    &&& encode_utf8(join_commas(m.depends)).len() <= u64::MAX
    &&& m.pre_install.len() <= u64::MAX
    &&& m.post_install.len() <= u64::MAX
    &&& m.pre_remove.len() <= u64::MAX
    &&& m.post_remove.len() <= u64::MAX
    &&& m.filelist.len() <= u64::MAX
    &&& forall|i: int|
        0 <= i < m.filelist.len() ==> encode_utf8(#[trigger] m.filelist[i].path).len() <= u64::MAX
}

/// Every dependency name survives the comma-joined storage form.
pub open spec fn wf_depends(deps: Seq<Seq<char>>) -> bool {
    forall|i: int| 0 <= i < deps.len() ==> wf_dep_name(#[trigger] deps[i])
}

pub(crate) proof fn lemma_subrange_of_eq(b: Seq<u8>, pos: int, whole: Seq<u8>, off: int, part: Seq<u8>)
    requires
        0 <= pos,
        pos + whole.len() <= b.len(),
        b.subrange(pos, pos + whole.len()) == whole,
        0 <= off,
        off + part.len() <= whole.len(),
        whole.subrange(off, off + part.len()) == part,
    ensures
        b.subrange(pos + off, pos + off + part.len()) == part,
{
    assert forall|k: int| 0 <= k < part.len() implies b.subrange(
        pos + off,
        pos + off + part.len(),
    )[k] == part[k] by {
        assert(b.subrange(pos, pos + whole.len())[off + k] == whole[off + k]);
        assert(whole.subrange(off, off + part.len())[k] == part[k]);
    }
    assert(b.subrange(pos + off, pos + off + part.len()) =~= part);
}

pub(crate) proof fn lemma_take_u64_at(b: Seq<u8>, pos: int, x: u64)
    requires
        0 <= pos,
        pos + 8 <= b.len(),
        b.subrange(pos, pos + 8) == be64(x),
    ensures
        take_u64(b, pos) == Parsed::<u64>::Found(x, pos + 8),
{
    crate::codec::lemma_be64_round_trip(x);
}

pub(crate) proof fn lemma_take_u32_at(b: Seq<u8>, pos: int, x: u32)
    requires
        0 <= pos,
        pos + 4 <= b.len(),
        b.subrange(pos, pos + 4) == be32(x),
    ensures
        take_u32(b, pos) == Parsed::<u32>::Found(x, pos + 4),
{
    crate::codec::lemma_be32_round_trip(x);
}

proof fn lemma_take_lp_bytes_at(b: Seq<u8>, pos: int, d: Seq<u8>)
    requires
        0 <= pos,
        d.len() <= u64::MAX,
        pos + 8 + d.len() <= b.len(),
        b.subrange(pos, pos + 8 + d.len()) == lp_bytes(d),
    ensures
        take_lp_bytes(b, pos) == Parsed::<Seq<u8>>::Found(d, pos + 8 + d.len()),
{
    let n = d.len() as u64;
    let whole = lp_bytes(d);
    assert(whole.subrange(0, 8) =~= be64(n));
    lemma_subrange_of_eq(b, pos, whole, 0, be64(n));
    lemma_take_u64_at(b, pos, n);
    assert(whole.subrange(8, 8 + d.len() as int) =~= d);
    lemma_subrange_of_eq(b, pos, whole, 8, d);
}

pub(crate) proof fn lemma_take_lp_str_at(b: Seq<u8>, pos: int, s: Seq<char>)
    requires
        0 <= pos,
        encode_utf8(s).len() <= u64::MAX,
        pos + 8 + encode_utf8(s).len() <= b.len(),
        b.subrange(pos, pos + 8 + encode_utf8(s).len()) == lp_str(s),
    ensures
        take_lp_str(b, pos) == Parsed::<Seq<char>>::Found(s, pos + 8 + encode_utf8(s).len()),
{
    broadcast use encode_utf8_valid_utf8, encode_utf8_decode_utf8;

    lemma_take_lp_bytes_at(b, pos, encode_utf8(s));
}

proof fn lemma_take_magic_at(b: Seq<u8>, pos: int, m: Seq<u8>)
    requires
        0 <= pos,
        pos + m.len() <= b.len(),
        b.subrange(pos, pos + m.len()) == m,
    ensures
        take_magic(b, pos, m) == Parsed::<()>::Found((), pos + m.len()),
{
}

proof fn lemma_take_entry_at(b: Seq<u8>, pos: int, e: EntryV)
    requires
        0 <= pos,
        encode_utf8(e.path).len() <= u64::MAX,
        pos + enc_entry(e).len() <= b.len(),
        b.subrange(pos, pos + enc_entry(e).len()) == enc_entry(e),
    ensures
        take_entry(b, pos) == Parsed::<EntryV>::Found(e, pos + enc_entry(e).len()),
{
    let ee = enc_entry(e);
    let pl = 8 + encode_utf8(e.path).len() as int;
    assert(ee.subrange(0, pl) =~= lp_str(e.path));
    lemma_subrange_of_eq(b, pos, ee, 0, lp_str(e.path));
    lemma_take_lp_str_at(b, pos, e.path);
    assert(ee.subrange(pl, pl + 8) =~= be64(e.size));
    lemma_subrange_of_eq(b, pos, ee, pl, be64(e.size));
    lemma_take_u64_at(b, pos + pl, e.size);
    assert(ee.subrange(pl + 8, pl + 12) =~= be32(e.mode));
    lemma_subrange_of_eq(b, pos, ee, pl + 8, be32(e.mode));
    lemma_take_u32_at(b, pos + pl + 8, e.mode);
    assert(ee.subrange(pl + 12, pl + 16) =~= be32(e.uid));
    lemma_subrange_of_eq(b, pos, ee, pl + 12, be32(e.uid));
    lemma_take_u32_at(b, pos + pl + 12, e.uid);
    assert(ee.subrange(pl + 16, pl + 20) =~= be32(e.gid));
    lemma_subrange_of_eq(b, pos, ee, pl + 16, be32(e.gid));
    lemma_take_u32_at(b, pos + pl + 16, e.gid);
    assert(ee.subrange(pl + 20, pl + 28) =~= be64(e.checksum));
    lemma_subrange_of_eq(b, pos, ee, pl + 20, be64(e.checksum));
    lemma_take_u64_at(b, pos + pl + 20, e.checksum);
    if let Parsed::Found(ev, q) = take_entry(b, pos) {
        assert(ev =~= e);
    }
}

proof fn lemma_take_entries_at(b: Seq<u8>, pos: int, es: Seq<EntryV>)
    requires
        0 <= pos,
        pos + enc_entries(es).len() <= b.len(),
        b.subrange(pos, pos + enc_entries(es).len()) == enc_entries(es),
        forall|i: int| 0 <= i < es.len() ==> encode_utf8(#[trigger] es[i].path).len() <= u64::MAX,
    ensures
        take_entries(b, pos, es.len()) == Parsed::<Seq<EntryV>>::Found(
            es,
            pos + enc_entries(es).len(),
        ),
    decreases es.len(),
{
    if es.len() == 0 {
        assert(take_entries(b, pos, 0) == Parsed::<Seq<EntryV>>::Found(Seq::empty(), pos));
        assert(Seq::<EntryV>::empty() =~= es);
    } else {
        let e = es[0];
        let whole = enc_entries(es);
        let el = enc_entry(e).len() as int;
        let rl = enc_entries(es.drop_first()).len() as int;
        assert(whole == enc_entry(e) + enc_entries(es.drop_first()));
        assert(whole.subrange(0, el) =~= enc_entry(e));
        lemma_subrange_of_eq(b, pos, whole, 0, enc_entry(e));
        lemma_take_entry_at(b, pos, e);
        assert(whole.subrange(el, el + rl) =~= enc_entries(es.drop_first()));
        lemma_subrange_of_eq(b, pos, whole, el, enc_entries(es.drop_first()));
        assert(forall|i: int|
            0 <= i < es.drop_first().len() ==> encode_utf8(
                #[trigger] es.drop_first()[i].path,
            ).len() <= u64::MAX);
        lemma_take_entries_at(b, pos + el, es.drop_first());
        assert(seq![e] + es.drop_first() =~= es);
    }
}

proof fn seq_assoc(a: Seq<u8>, b: Seq<u8>, c: Seq<u8>)
    ensures
        (a + b) + c == a + (b + c),
{
    assert((a + b) + c =~= a + (b + c));
}

pub(crate) proof fn lemma_peel(a: Seq<u8>, c: Seq<u8>)
    ensures
        (a + c).subrange(0, a.len() as int) == a,
        (a + c).subrange(a.len() as int, (a + c).len() as int) == c,
{
    assert((a + c).subrange(0, a.len() as int) =~= a);
    assert((a + c).subrange(a.len() as int, (a + c).len() as int) =~= c);
}

/// Extracts the last piece of a prefix known under `b`, and keeps the
/// shorter prefix known too.
pub(crate) proof fn lemma_peel_in(b: Seq<u8>, t: Seq<u8>, piece: Seq<u8>)
    requires
        t.len() + piece.len() <= b.len(),
        b.subrange(0, (t.len() + piece.len()) as int) == t + piece,
    ensures
        b.subrange(0, t.len() as int) == t,
        b.subrange(t.len() as int, (t.len() + piece.len()) as int) == piece,
{
    lemma_peel(t, piece);
    lemma_subrange_of_eq(b, 0, t + piece, 0, t);
    lemma_subrange_of_eq(b, 0, t + piece, t.len() as int, piece);
}

#[verifier::rlimit(100)]
#[verifier::spinoff_prover]
proof fn lemma_hooks_round_trip(b: Seq<u8>, m: MetaV, p6: int)
    requires
        meta_fits(m),
        wf_depends(m.depends),
        0 <= p6,
        p6 + 8 + m.pre_install.len() + 8 + m.post_install.len() + 8 + m.pre_remove.len() + 8
            + m.post_remove.len() + 8 + enc_entries(m.filelist).len() + 4 <= b.len(),
        b.subrange(
            p6,
            p6 + 8 + m.pre_install.len() + 8 + m.post_install.len() + 8 + m.pre_remove.len() + 8
                + m.post_remove.len() + 8 + enc_entries(m.filelist).len() + 4,
        ) == lp_bytes(m.pre_install) + lp_bytes(m.post_install) + lp_bytes(m.pre_remove)
            + lp_bytes(m.post_remove) + be64(m.filelist.len() as u64) + enc_entries(m.filelist)
            + magic_zstd(),
    ensures
        parse_header_hooks(
            b,
            p6,
            m.name,
            m.version,
            m.release,
            m.packager,
            m.license,
            join_commas(m.depends),
        ) == HeaderParse::Found(
            m,
            p6 + 8 + m.pre_install.len() + 8 + m.post_install.len() + 8 + m.pre_remove.len() + 8
                + m.post_remove.len() + 8 + enc_entries(m.filelist).len() + 4,
        ),
{
    let w1 = lp_bytes(m.pre_install);
    let w2 = w1 + lp_bytes(m.post_install);
    let w3 = w2 + lp_bytes(m.pre_remove);
    let w4 = w3 + lp_bytes(m.post_remove);
    let w5 = w4 + be64(m.filelist.len() as u64);
    let w6 = w5 + enc_entries(m.filelist);
    let whole = w6 + magic_zstd();
    let p7 = p6 + 8 + m.pre_install.len();
    let p8 = p7 + 8 + m.post_install.len();
    let p9 = p8 + 8 + m.pre_remove.len();
    let p10 = p9 + 8 + m.post_remove.len();
    let p11 = p10 + 8;
    let p12 = p11 + enc_entries(m.filelist).len();
    let p13 = p12 + 4;
    assert(whole.subrange(0, w6.len() as int) == w6 && whole.subrange(
        w6.len() as int,
        whole.len() as int,
    ) == magic_zstd()) by {
        lemma_peel(w6, magic_zstd());
    }
    assert(b.subrange(p6, p13) == whole);
    lemma_subrange_of_eq(b, p6, whole, 0, w6);
    lemma_subrange_of_eq(b, p6, whole, w6.len() as int, magic_zstd());
    lemma_peel(w5, enc_entries(m.filelist));
    lemma_subrange_of_eq(b, p6, w6, 0, w5);
    lemma_subrange_of_eq(b, p6, w6, w5.len() as int, enc_entries(m.filelist));
    lemma_peel(w4, be64(m.filelist.len() as u64));
    lemma_subrange_of_eq(b, p6, w5, 0, w4);
    lemma_subrange_of_eq(b, p6, w5, w4.len() as int, be64(m.filelist.len() as u64));
    lemma_peel(w3, lp_bytes(m.post_remove));
    lemma_subrange_of_eq(b, p6, w4, 0, w3);
    lemma_subrange_of_eq(b, p6, w4, w3.len() as int, lp_bytes(m.post_remove));
    lemma_peel(w2, lp_bytes(m.pre_remove));
    lemma_subrange_of_eq(b, p6, w3, 0, w2);
    lemma_subrange_of_eq(b, p6, w3, w2.len() as int, lp_bytes(m.pre_remove));
    lemma_peel(w1, lp_bytes(m.post_install));
    lemma_subrange_of_eq(b, p6, w2, 0, w1);
    lemma_subrange_of_eq(b, p6, w2, w1.len() as int, lp_bytes(m.post_install));
    lemma_take_lp_bytes_at(b, p6, m.pre_install);
    lemma_take_lp_bytes_at(b, p7, m.post_install);
    lemma_take_lp_bytes_at(b, p8, m.pre_remove);
    lemma_take_lp_bytes_at(b, p9, m.post_remove);
    lemma_take_u64_at(b, p10, m.filelist.len() as u64);
    lemma_take_entries_at(b, p11, m.filelist);
    lemma_take_magic_at(b, p12, magic_zstd());
    lemma_depends_round_trip(m.depends);
    assert((m.filelist.len() as u64) as nat == m.filelist.len());
    if let HeaderParse::Found(mm, pp) = parse_header_hooks(
        b,
        p6,
        m.name,
        m.version,
        m.release,
        m.packager,
        m.license,
        join_commas(m.depends),
    ) {
        assert(mm =~= m);
    }
}

/// Where each field of an encoded header sits: subrange facts used by
/// the round-trip proof.
#[verifier::rlimit(100)]
#[verifier::spinoff_prover]
proof fn lemma_header_pieces(m: MetaV, rest: Seq<u8>)
    ensures
        ({
            let h = enc_header(m);
            let b = h + rest;
            let dep = join_commas(m.depends);
            let p0 = 4int;
            let p1 = p0 + 8 + encode_utf8(m.name).len();
            let p2 = p1 + 8 + encode_utf8(m.version).len();
            let p3 = p2 + 8;
            let p4 = p3 + 8 + encode_utf8(m.packager).len();
            let p5 = p4 + 8 + encode_utf8(m.license).len();
            let p6 = p5 + 8 + encode_utf8(dep).len();
            &&& h.len() == p6 + 8 + m.pre_install.len() + 8 + m.post_install.len() + 8
                + m.pre_remove.len() + 8 + m.post_remove.len() + 8 + enc_entries(
                m.filelist,
            ).len() + 4
            &&& b.subrange(0, 4) == magic_meow()
            &&& b.subrange(p0, p1) == lp_str(m.name)
            &&& b.subrange(p1, p2) == lp_str(m.version)
            &&& b.subrange(p2, p3) == be64(m.release)
            &&& b.subrange(p3, p4) == lp_str(m.packager)
            &&& b.subrange(p4, p5) == lp_str(m.license)
            &&& b.subrange(p5, p6) == lp_str(dep)
            &&& b.subrange(p6, h.len() as int) == lp_bytes(m.pre_install) + lp_bytes(
                m.post_install,
            ) + lp_bytes(m.pre_remove) + lp_bytes(m.post_remove) + be64(m.filelist.len() as u64)
                + enc_entries(m.filelist) + magic_zstd()
        }),
{
    let h = enc_header(m);
    let b = h + rest;
    let dep = join_commas(m.depends);
    let t1 = magic_meow() + lp_str(m.name);
    let t2 = t1 + lp_str(m.version);
    let t3 = t2 + be64(m.release);
    let t4 = t3 + lp_str(m.packager);
    let t5 = t4 + lp_str(m.license);
    let t6 = t5 + lp_str(dep);
    let ka = lp_bytes(m.pre_install);
    let kb = lp_bytes(m.post_install);
    let kc = lp_bytes(m.pre_remove);
    let kd = lp_bytes(m.post_remove);
    let ke = be64(m.filelist.len() as u64);
    let kf = enc_entries(m.filelist);
    let kg = magic_zstd();
    let tail = ka + kb + kc + kd + ke + kf + kg;
    assert(h == t6 + ka + kb + kc + kd + ke + kf + kg);
    seq_assoc(t6, ka, kb);
    seq_assoc(t6, ka + kb, kc);
    seq_assoc(t6, ka + kb + kc, kd);
    seq_assoc(t6, ka + kb + kc + kd, ke);
    seq_assoc(t6, ka + kb + kc + kd + ke, kf);
    seq_assoc(t6, ka + kb + kc + kd + ke + kf, kg);
    assert(h == t6 + tail);
    assert(b.subrange(0, h.len() as int) =~= h);
    lemma_peel_in(b, t6, tail);
    lemma_peel_in(b, t5, lp_str(dep));
    lemma_peel_in(b, t4, lp_str(m.license));
    lemma_peel_in(b, t3, lp_str(m.packager));
    lemma_peel_in(b, t2, be64(m.release));
    lemma_peel_in(b, t1, lp_str(m.version));
    lemma_peel_in(b, magic_meow(), lp_str(m.name));
}

/// Reduces [`parse_header`] once every field of the front half is known.
#[verifier::rlimit(100)]
#[verifier::spinoff_prover]
proof fn lemma_header_compose(b: Seq<u8>, m: MetaV, p1: int, p2: int, p3: int, p4: int, p5: int, p6: int, end: int)
    requires
        take_magic(b, 0, magic_meow()) == Parsed::<()>::Found((), 4),
        take_lp_str(b, 4) == Parsed::<Seq<char>>::Found(m.name, p1),
        take_lp_str(b, p1) == Parsed::<Seq<char>>::Found(m.version, p2),
        take_u64(b, p2) == Parsed::<u64>::Found(m.release, p3),
        take_lp_str(b, p3) == Parsed::<Seq<char>>::Found(m.packager, p4),
        take_lp_str(b, p4) == Parsed::<Seq<char>>::Found(m.license, p5),
        take_lp_str(b, p5) == Parsed::<Seq<char>>::Found(join_commas(m.depends), p6),
        parse_header_hooks(
            b,
            p6,
            m.name,
            m.version,
            m.release,
            m.packager,
            m.license,
            join_commas(m.depends),
        ) == HeaderParse::Found(m, end),
    ensures
        parse_header(b) == HeaderParse::Found(m, end),
{
}

/// Round trip of the header grammar: parsing an encoded header, with any
/// payload behind it, recovers exactly the metadata that was encoded.
#[verifier::rlimit(100)]
#[verifier::spinoff_prover]
pub proof fn lemma_header_round_trip(m: MetaV, rest: Seq<u8>)
    requires
        meta_fits(m),
        wf_depends(m.depends),
    ensures
        parse_header(enc_header(m) + rest) == HeaderParse::Found(m, enc_header(m).len() as int),
{
    let h = enc_header(m);
    let b = h + rest;
    let dep = join_commas(m.depends);
    let p0 = 4int;
    let p1 = p0 + 8 + encode_utf8(m.name).len();
    let p2 = p1 + 8 + encode_utf8(m.version).len();
    let p3 = p2 + 8;
    let p4 = p3 + 8 + encode_utf8(m.packager).len();
    let p5 = p4 + 8 + encode_utf8(m.license).len();
    let p6 = p5 + 8 + encode_utf8(dep).len();
    lemma_header_pieces(m, rest);
    lemma_take_magic_at(b, 0, magic_meow());
    lemma_take_lp_str_at(b, p0, m.name);
    lemma_take_lp_str_at(b, p1, m.version);
    lemma_take_u64_at(b, p2, m.release);
    lemma_take_lp_str_at(b, p3, m.packager);
    lemma_take_lp_str_at(b, p4, m.license);
    lemma_take_lp_str_at(b, p5, dep);
    lemma_hooks_round_trip(b, m, p6);
    lemma_header_compose(
        b,
        m,
        p1,
        p2,
        p3,
        p4,
        p5,
        p6,
        enc_header(m).len() as int,
    );
}

} // verus!
