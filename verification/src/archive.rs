//! The whole archive envelope: encoded header, compressed payload of
//! concatenated bodies, appended detached signature, and the trailing
//! signature length.

use vstd::prelude::*;

use crate::codec::{be64, be64_val, push_u64_be, lemma_be64_round_trip};
use crate::errors::{spec_file_kind, FileKind, MeowError};
use crate::meowzip::{enc_header, entries_view, parse_header, read_metadata, encode_header,
    EntryV, HeaderParse, MeowZipEntry, MeowZipMetadata};
use crate::signing::{minisign_valid, sign_with_key, verify_with_any};
use crate::strutil::string_from_utf8;

verus! {

// ---------------------------------------------------------------------------
// Compression, behind its name
// ---------------------------------------------------------------------------

/// What decompressing a byte string yields: the original input for any
/// frame the compressor produced, nothing for an invalid stream. A
/// function of the bytes alone.
pub uninterp spec fn zstd_decoding(bytes: Seq<u8>) -> Option<Seq<u8>>;

/// Relies on `zstd::stream::encode_all` together with `decode_all`: the
/// frame it produces decompresses back to exactly the input.
#[verifier::external_body]
fn zstd_compress(data: &[u8]) -> (r: Option<Vec<u8>>)
    ensures
        r matches Some(c) ==> zstd_decoding(c@) == Some(data@),
{
    zstd::stream::encode_all(data, 0).ok()
}

/// Relies on `zstd::stream::decode_all`: decompression is a function of
/// the input bytes, succeeding exactly on a valid frame.
#[verifier::external_body]
fn zstd_decompress(data: &[u8]) -> (r: Option<Vec<u8>>)
    ensures
        r matches Some(d) ==> zstd_decoding(data@) == Some(d@),
        r is None ==> zstd_decoding(data@) is None,
{
    zstd::stream::decode_all(data).ok()
}

// ---------------------------------------------------------------------------
// The payload: concatenated bodies, in manifest order
// ---------------------------------------------------------------------------

/// How many payload bytes one entry contributes: none for a directory,
/// its `size` otherwise.
pub open spec fn entry_body_len(e: EntryV) -> nat {
    if spec_file_kind(e.mode) == Some(FileKind::Directory) {
        0
    } else {
        e.size as nat
    }
}

/// The payload bytes of a whole manifest.
pub open spec fn total_body_len(es: Seq<EntryV>) -> nat
    decreases es.len(),
{
    if es.len() == 0 {
        0
    } else {
        entry_body_len(es[0]) + total_body_len(es.drop_first())
    }
}

/// Bodies that fit a manifest: one per entry, of exactly the announced
/// length.
pub open spec fn bodies_match(es: Seq<EntryV>, bodies: Seq<Seq<u8>>) -> bool {
    &&& bodies.len() == es.len()
    &&& forall|i: int| 0 <= i < es.len() ==> (#[trigger] bodies[i]).len() == entry_body_len(es[i])
}

/// The view of a vector of body byte-vectors.
pub open spec fn bodies_view(v: Seq<Vec<u8>>) -> Seq<Seq<u8>> {
    Seq::new(v.len(), |i: int| v[i]@)
}

pub open spec fn concat_bodies(bodies: Seq<Seq<u8>>) -> Seq<u8>
    decreases bodies.len(),
{
    if bodies.len() == 0 {
        Seq::empty()
    } else {
        bodies[0] + concat_bodies(bodies.drop_first())
    }
}

proof fn lemma_concat_bodies_push(bodies: Seq<Seq<u8>>, b: Seq<u8>)
    ensures
        concat_bodies(bodies.push(b)) == concat_bodies(bodies) + b,
    decreases bodies.len(),
{
    let p = bodies.push(b);
    if bodies.len() == 0 {
        assert(p[0] == b);
        assert(p.drop_first() =~= Seq::<Seq<u8>>::empty());
        assert(concat_bodies(p.drop_first()) == Seq::<u8>::empty());
        assert(concat_bodies(p) == b + Seq::<u8>::empty());
        assert(b + Seq::<u8>::empty() =~= Seq::<u8>::empty() + b);
    } else {
        assert(p[0] == bodies[0]);
        assert(p.drop_first() =~= bodies.drop_first().push(b));
        lemma_concat_bodies_push(bodies.drop_first(), b);
        assert(bodies[0] + (concat_bodies(bodies.drop_first()) + b) =~= (bodies[0] + concat_bodies(
            bodies.drop_first(),
        )) + b);
    }
}

proof fn lemma_total_body_len_push(es: Seq<EntryV>, e: EntryV)
    ensures
        total_body_len(es.push(e)) == total_body_len(es) + entry_body_len(e),
    decreases es.len(),
{
    let p = es.push(e);
    if es.len() == 0 {
        assert(p[0] == e);
        assert(p.drop_first() =~= Seq::<EntryV>::empty());
        assert(total_body_len(p.drop_first()) == 0);
        assert(total_body_len(es) == 0);
    } else {
        assert(p[0] == es[0]);
        assert(p.drop_first() =~= es.drop_first().push(e));
        lemma_total_body_len_push(es.drop_first(), e);
    }
}

proof fn lemma_total_body_len_prefix_bound(es: Seq<EntryV>, i: int)
    requires
        0 <= i <= es.len(),
    ensures
        total_body_len(es.take(i)) <= total_body_len(es),
    decreases es.len() - i,
{
    if i == es.len() {
        assert(es.take(i) =~= es);
    } else {
        assert(es.take(i).push(es[i]) =~= es.take(i + 1));
        lemma_total_body_len_push(es.take(i), es[i]);
        lemma_total_body_len_prefix_bound(es, i + 1);
    }
}

/// A manifest admits only one division of a payload into bodies.
pub proof fn lemma_bodies_unique(es: Seq<EntryV>, b1: Seq<Seq<u8>>, b2: Seq<Seq<u8>>)
    requires
        bodies_match(es, b1),
        bodies_match(es, b2),
        concat_bodies(b1) == concat_bodies(b2),
    ensures
        b1 == b2,
    decreases es.len(),
{
    if es.len() == 0 {
        assert(b1 =~= b2);
    } else {
        let n = b1[0].len() as int;
        assert(b2[0].len() == n);
        assert(concat_bodies(b1) == b1[0] + concat_bodies(b1.drop_first()));
        assert(concat_bodies(b2) == b2[0] + concat_bodies(b2.drop_first()));
        assert forall|k: int| 0 <= k < n implies b1[0][k] == b2[0][k] by {
            assert((b1[0] + concat_bodies(b1.drop_first()))[k] == b1[0][k]);
            assert((b2[0] + concat_bodies(b2.drop_first()))[k] == b2[0][k]);
        }
        assert(b1[0] =~= b2[0]);
        assert forall|k: int|
            0 <= k < concat_bodies(b1.drop_first()).len() implies concat_bodies(
            b1.drop_first(),
        )[k] == concat_bodies(b2.drop_first())[k] by {
            assert((b1[0] + concat_bodies(b1.drop_first()))[n + k] == concat_bodies(
                b1.drop_first(),
            )[k]);
            assert((b2[0] + concat_bodies(b2.drop_first()))[n + k] == concat_bodies(
                b2.drop_first(),
            )[k]);
        }
        assert(concat_bodies(b1.drop_first()) =~= concat_bodies(b2.drop_first()));
        assert(bodies_match(es.drop_first(), b1.drop_first()));
        assert(bodies_match(es.drop_first(), b2.drop_first()));
        lemma_bodies_unique(es.drop_first(), b1.drop_first(), b2.drop_first());
        assert forall|k: int| 0 <= k < b1.len() implies b1[k] == b2[k] by {
            if k > 0 {
                assert(b1.drop_first()[k - 1] == b1[k]);
                assert(b2.drop_first()[k - 1] == b2[k]);
            }
        }
        assert(b1 =~= b2);
    }
}

/// Concatenates per-entry bodies into the forward-only payload stream.
pub fn concat_payload(bodies: &Vec<Vec<u8>>) -> (r: Vec<u8>)
    ensures
        r@ == concat_bodies(bodies_view(bodies@)),
{
    let mut out: Vec<u8> = Vec::new();
    let n = bodies.len();
    proof {
        assert(bodies_view(bodies@).take(0) =~= Seq::<Seq<u8>>::empty());
    }
    for i in 0..n
        invariant
            n == bodies@.len(),
            out@ == concat_bodies(bodies_view(bodies@).take(i as int)),
        decreases n - i,
    {
        out.extend_from_slice(bodies[i].as_slice());
        proof {
            let dv = bodies_view(bodies@);
            assert(dv.take(i as int).push(dv[i as int]) =~= dv.take(i as int + 1));
            lemma_concat_bodies_push(dv.take(i as int), dv[i as int]);
        }
    }
    proof {
        assert(bodies_view(bodies@).take(n as int) =~= bodies_view(bodies@));
    }
    out
}

/// Cuts a decompressed payload back into one body per manifest entry.
/// Succeeds exactly when the payload holds just the announced bytes.
pub fn split_bodies(payload: &[u8], entries: &Vec<MeowZipEntry>) -> (r: Result<
    Vec<Vec<u8>>,
    MeowError,
>)
    ensures
        (r matches Ok(bodies) ==> {
            &&& bodies_match(entries_view(entries@), bodies_view(bodies@))
            &&& concat_bodies(bodies_view(bodies@)) == payload@
        }),
        r is Ok <==> payload@.len() == total_body_len(entries_view(entries@)),
        r matches Err(e) ==> e is PayloadMismatch,
{
    let ghost ev = entries_view(entries@);
    let mut out: Vec<Vec<u8>> = Vec::new();
    let mut pos: usize = 0;
    let n = entries.len();
    proof {
        assert(ev.take(0) =~= Seq::<EntryV>::empty());
        assert(bodies_view(out@) =~= Seq::<Seq<u8>>::empty());
        assert(payload@.subrange(0, 0) =~= Seq::<u8>::empty());
    }
    for i in 0..n
        invariant
            n == entries@.len(),
            ev == entries_view(entries@),
            pos <= payload@.len(),
            pos == total_body_len(ev.take(i as int)),
            bodies_view(out@).len() == i,
            bodies_match(ev.take(i as int), bodies_view(out@)),
            concat_bodies(bodies_view(out@)) == payload@.subrange(0, pos as int),
        decreases n - i,
    {
        let ghost dv_before = bodies_view(out@);
        let e = &entries[i];
        let need: usize = if crate::errors::file_kind_of_mode(e.mode) == Some(
            FileKind::Directory,
        ) {
            0
        } else {
            if e.size > (payload.len() - pos) as u64 {
                proof {
                    assert(ev.take(i as int).push(ev[i as int]) =~= ev.take(i as int + 1));
                    lemma_total_body_len_push(ev.take(i as int), ev[i as int]);
                    lemma_total_body_len_prefix_bound(ev, i as int + 1);
                }
                return Err(MeowError::PayloadMismatch);
            }
            e.size as usize
        };
        let mut body: Vec<u8> = Vec::new();
        body.extend_from_slice(&payload[pos..pos + need]);
        let ghost bv = body@;
        out.push(body);
        proof {
            assert(ev.take(i as int).push(ev[i as int]) =~= ev.take(i as int + 1));
            lemma_total_body_len_push(ev.take(i as int), ev[i as int]);
            assert(bodies_view(out@) =~= dv_before.push(bv));
            lemma_concat_bodies_push(dv_before, bv);
            assert(payload@.subrange(0, pos as int) + payload@.subrange(
                pos as int,
                pos + need,
            ) =~= payload@.subrange(0, (pos + need) as int));
            assert(entry_body_len(ev[i as int]) == need);
        }
        pos = pos + need;
    }
    proof {
        assert(ev.take(n as int) =~= ev);
    }
    if pos != payload.len() {
        return Err(MeowError::PayloadMismatch);
    }
    proof {
        assert(payload@.subrange(0, pos as int) =~= payload@);
    }
    Ok(out)
}

// ---------------------------------------------------------------------------
// The signature trailer
// ---------------------------------------------------------------------------

/// Where a signed archive divides: the end of the signed region and the
/// signature bytes, read from the trailing length word.
pub open spec fn spec_split_signed(b: Seq<u8>) -> Option<(int, Seq<u8>)> {
    if b.len() >= 8 {
        let sl = be64_val(b.subrange(b.len() - 8, b.len() as int)) as int;
        if sl + 8 <= b.len() {
            Some(
                (
                    b.len() - 8 - sl,
                    b.subrange(b.len() - 8 - sl, b.len() - 8),
                ),
            )
        } else {
            None
        }
    } else {
        None
    }
}

/// Reads the signature trailer: the end of the signed region and the
/// signature bytes.
pub fn split_signed(bytes: &[u8]) -> (r: Result<(usize, Vec<u8>), MeowError>)
    ensures
        (spec_split_signed(bytes@) matches Some(v) ==> (r matches Ok(x) && x.0 == v.0 && x.1@
            == v.1)),
        spec_split_signed(bytes@) is None ==> (r matches Err(e) && e is Truncated),
{
    let blen = bytes.len();
    if blen < 8 {
        return Err(MeowError::Truncated);
    }
    let (sl, _) = match crate::codec::read_u64_be(bytes, blen - 8) {
        Some(x) => x,
        None => {
            return Err(MeowError::Truncated);
        },
    };
    if sl > (blen - 8) as u64 {
        return Err(MeowError::Truncated);
    }
    let slu: usize = sl as usize;
    let data_end = blen - 8 - slu;
    let mut sig: Vec<u8> = Vec::new();
    sig.extend_from_slice(&bytes[data_end..blen - 8]);
    Ok((data_end, sig))
}

/// Appends a detached signature and its length word to a finished
/// archive body; the trailer then reads back exactly this division.
pub fn attach_signature(archive: &Vec<u8>, sig: &Vec<u8>) -> (r: Vec<u8>)
    ensures
        r@ == archive@ + sig@ + be64(sig@.len() as u64),
        spec_split_signed(r@) == Some((archive@.len() as int, sig@)),
{
    let mut out: Vec<u8> = Vec::new();
    out.extend_from_slice(archive.as_slice());
    out.extend_from_slice(sig.as_slice());
    push_u64_be(&mut out, sig.len() as u64);
    proof {
        assert(out@ =~= archive@ + sig@ + be64(sig@.len() as u64));
        let b = out@;
        lemma_be64_round_trip(sig@.len() as u64);
        assert(b.subrange(b.len() - 8, b.len() as int) =~= be64(sig@.len() as u64));
        assert(b.subrange(b.len() - 8 - sig@.len(), b.len() - 8) =~= sig@);
    }
    out
}

// ---------------------------------------------------------------------------
// The whole envelope
// ---------------------------------------------------------------------------

/// Builds the unsigned archive: encoded header followed by the
/// compressed payload of the concatenated bodies.
pub fn pack_unsigned(meta: &MeowZipMetadata, bodies: &Vec<Vec<u8>>) -> (r: Result<
    Vec<u8>,
    MeowError,
>)
    requires
        bodies_match(meta@.filelist, bodies_view(bodies@)),
    ensures
        (r matches Ok(v) ==> {
            let hl = enc_header(meta@).len() as int;
            &&& v@.len() >= hl
            &&& v@.subrange(0, hl) == enc_header(meta@)
            &&& zstd_decoding(v@.subrange(hl, v@.len() as int)) == Some(
                concat_bodies(bodies_view(bodies@)),
            )
        }),
        r matches Err(e) ==> e is CompressFailed,
{
    let mut out = encode_header(meta);
    let payload = concat_payload(bodies);
    let comp = match zstd_compress(payload.as_slice()) {
        Some(c) => c,
        None => {
            return Err(MeowError::CompressFailed);
        },
    };
    let ghost hl = enc_header(meta@).len() as int;
    out.extend_from_slice(comp.as_slice());
    proof {
        assert(out@.subrange(0, hl) =~= enc_header(meta@));
        assert(out@.subrange(hl, out@.len() as int) =~= comp@);
    }
    Ok(out)
}

/// Builds and signs a complete archive: header, compressed payload,
/// detached signature, and the trailing signature length.
pub fn create_archive(
    meta: &MeowZipMetadata,
    bodies: &Vec<Vec<u8>>,
    sk: &minisign::SecretKey,
) -> (r: Result<Vec<u8>, MeowError>)
    requires
        bodies_match(meta@.filelist, bodies_view(bodies@)),
    ensures
        (r matches Ok(v) ==> {
            let hl = enc_header(meta@).len() as int;
            &&& spec_split_signed(v@) matches Some(sp) && (sp.0 >= hl && v@.subrange(0, hl)
                == enc_header(meta@) && zstd_decoding(v@.subrange(hl, sp.0)) == Some(
                concat_bodies(bodies_view(bodies@)),
            ))
        }),
        r matches Err(e) ==> (e is CompressFailed || e is SignFailed),
{
    let unsigned = match pack_unsigned(meta, bodies) {
        Ok(v) => v,
        Err(e) => {
            return Err(e);
        },
    };
    let sig = match sign_with_key(sk, unsigned.as_slice()) {
        Some(s) => s,
        None => {
            return Err(MeowError::SignFailed);
        },
    };
    let out = attach_signature(&unsigned, &sig);
    proof {
        let hl = enc_header(meta@).len() as int;
        assert(out@.subrange(0, hl) =~= unsigned@.subrange(0, hl));
        assert(out@.subrange(hl, unsigned@.len() as int) =~= unsigned@.subrange(
            hl,
            unsigned@.len() as int,
        ));
    }
    Ok(out)
}

/// The condition under which an archive in memory opens: the header
/// parses, the signature trailer divides the file, the region between
/// them is a valid compressed stream, and it decompresses to exactly
/// the bytes the manifest announces.
pub open spec fn spec_openable(bytes: Seq<u8>) -> bool {
    &&& parse_header(bytes) matches HeaderParse::Found(m, p) && (
    spec_split_signed(bytes) matches Some(sp) && (p <= sp.0 && (zstd_decoding(
        bytes.subrange(p, sp.0),
    ) matches Some(d) && d.len() == total_body_len(m.filelist))))
}

/// Opens a signed archive held in memory: parses the header, cuts off
/// the signature trailer, decompresses the payload, and divides it into
/// one body per manifest entry. Succeeds exactly on an openable
/// archive.
pub fn open_archive(bytes: &[u8]) -> (r: Result<(MeowZipMetadata, Vec<Vec<u8>>), MeowError>)
    ensures
        r is Ok <==> spec_openable(bytes@),
        (r matches Ok(v) ==> {
            &&& parse_header(bytes@) matches HeaderParse::Found(m, p) && (m == v.0@
                && (spec_split_signed(bytes@) matches Some(sp) && (p <= sp.0 && zstd_decoding(
                bytes@.subrange(p, sp.0),
            ) == Some(concat_bodies(bodies_view(v.1@))))))
            &&& bodies_match(v.0@.filelist, bodies_view(v.1@))
        }),
        parse_header(bytes@) is BadMagic ==> (r matches Err(e) && e is BadMagic),
        parse_header(bytes@) is Short ==> (r matches Err(e) && e is Truncated),
        parse_header(bytes@) is BadUtf8 ==> (r matches Err(e) && e is BadUtf8),
        parse_header(bytes@) is BadTag ==> (r matches Err(e) && e is UnknownCompression),
{
    let (meta, hpos) = match read_metadata(bytes) {
        Ok(x) => x,
        Err(e) => {
            return Err(e);
        },
    };
    let (data_end, _sig) = match split_signed(bytes) {
        Ok(x) => x,
        Err(e) => {
            return Err(e);
        },
    };
    if hpos > data_end {
        return Err(MeowError::Truncated);
    }
    let payload = match zstd_decompress(&bytes[hpos..data_end]) {
        Some(p) => p,
        None => {
            return Err(MeowError::DecompressFailed);
        },
    };
    proof {
        assert(meta@.filelist =~= entries_view(meta.filelist@));
    }
    let bodies = match split_bodies(payload.as_slice(), &meta.filelist) {
        Ok(b) => b,
        Err(e) => {
            proof {
                assert(!spec_openable(bytes@));
            }
            return Err(e);
        },
    };
    Ok((meta, bodies))
}

/// Checks the appended signature of an archive against a trust set of
/// base64 keys: accepted exactly when the trailer divides the file, the
/// signature region is text, and some key validates it over the signed
/// region.
pub fn verify_archive(bytes: &[u8], keys: &Vec<String>) -> (r: Result<(), MeowError>)
    ensures
        r is Ok <==> (spec_split_signed(bytes@) matches Some(sp)
            && (vstd::utf8::valid_utf8(sp.1) && exists|i: int|
            0 <= i < keys@.len() && minisign_valid(
                keys@[i]@,
                vstd::utf8::decode_utf8(sp.1),
                bytes@.subrange(0, sp.0),
            ))),
        (r matches Err(e) ==> (e is Truncated <==> spec_split_signed(bytes@) is None)),
        (r matches Err(e) ==> (e is BadSignatureEncoding <==> (
        spec_split_signed(bytes@) matches Some(sp) && (!vstd::utf8::valid_utf8(sp.1))))),
{
    let (data_end, sig) = match split_signed(bytes) {
        Ok(x) => x,
        Err(_) => {
            return Err(MeowError::Truncated);
        },
    };
    let sig_str = match string_from_utf8(sig) {
        Some(s) => s,
        None => {
            return Err(MeowError::BadSignatureEncoding);
        },
    };
    if verify_with_any(keys, sig_str.as_str(), &bytes[0..data_end]) {
        Ok(())
    } else {
        Err(MeowError::SignatureRejected)
    }
}

} // verus!
