//! The installed-files list: the per-package record of shipped paths,
//! stored as a count-prefixed sequence of fixed-layout entries, followed
//! in an archive stream by the file bodies in list order.

use vstd::prelude::*;

use crate::codec::{be32, be64, lp_str, push_lp_str, push_u32_be, push_u64_be, read_u32_be,
    read_u64_be};
use crate::errors::{spec_file_kind, FileKind, MeowError};
use crate::meowzip::{take_lp_str, take_u32, take_u64, Parsed};

verus! {

/// One row of an installed-files list.
pub struct Entry {
    pub path: String,
    pub size: usize,
    pub mode: u32,
    pub uid: u32,
    pub gid: u32,
    pub hash: u64,
}

/// The mathematical value of a row.
#[verifier::ext_equal]
pub struct MzEntryV {
    pub path: Seq<char>,
    pub size: u64,
    pub mode: u32,
    pub uid: u32,
    pub gid: u32,
    pub hash: u64,
}

impl View for Entry {
    type V = MzEntryV;

    open spec fn view(&self) -> MzEntryV {
        MzEntryV {
            path: self.path@,
            size: self.size as u64,
            mode: self.mode,
            uid: self.uid,
            gid: self.gid,
            hash: self.hash,
        }
    }
}

/// The view of a list of rows.
pub open spec fn mz_view(v: Seq<Entry>) -> Seq<MzEntryV> {
    Seq::new(v.len(), |i: int| v[i]@)
}

/// The byte form of one row.
pub open spec fn enc_mz_entry(e: MzEntryV) -> Seq<u8> {
    lp_str(e.path) + be64(e.size) + be32(e.mode) + be32(e.uid) + be32(e.gid) + be64(e.hash)
}

pub open spec fn enc_mz_entries(es: Seq<MzEntryV>) -> Seq<u8>
    decreases es.len(),
{
    if es.len() == 0 {
        Seq::empty()
    } else {
        enc_mz_entries(es.drop_last()) + enc_mz_entry(es.last())
    }
}

/// The byte form of a whole list: the count, then the rows.
pub open spec fn enc_mzlist(es: Seq<MzEntryV>) -> Seq<u8> {
    be64(es.len() as u64) + enc_mz_entries(es)
}

/// How one row reads back at a position.
pub open spec fn take_mz_entry(b: Seq<u8>, pos: int) -> Parsed<MzEntryV> {
    match take_lp_str(b, pos) {
        Parsed::Found(path, p1) => match take_u64(b, p1) {
            Parsed::Found(size, p2) => match take_u32(b, p2) {
                Parsed::Found(mode, p3) => match take_u32(b, p3) {
                    Parsed::Found(uid, p4) => match take_u32(b, p4) {
                        Parsed::Found(gid, p5) => match take_u64(b, p5) {
                            Parsed::Found(hash, p6) => {
                                if size <= usize::MAX as u64 {
                                    Parsed::Found(
                                        MzEntryV { path, size, mode, uid, gid, hash },
                                        p6,
                                    )
                                } else {
                                    Parsed::Invalid
                                }
                            },
                            _ => Parsed::Short,
                        },
                        _ => Parsed::Short,
                    },
                    _ => Parsed::Short,
                },
                _ => Parsed::Short,
            },
            _ => Parsed::Short,
        },
        Parsed::Short => Parsed::Short,
        Parsed::Invalid => Parsed::Invalid,
    }
}

pub open spec fn take_mz_entries(b: Seq<u8>, pos: int, n: nat) -> Parsed<Seq<MzEntryV>>
    decreases n,
{
    if n == 0 {
        Parsed::Found(Seq::empty(), pos)
    } else {
        match take_mz_entry(b, pos) {
            Parsed::Found(e, p) => match take_mz_entries(b, p, (n - 1) as nat) {
                Parsed::Found(es, p2) => Parsed::Found(seq![e] + es, p2),
                Parsed::Short => Parsed::Short,
                Parsed::Invalid => Parsed::Invalid,
            },
            Parsed::Short => Parsed::Short,
            Parsed::Invalid => Parsed::Invalid,
        }
    }
}

/// The whole list at a position: count, then that many rows.
pub open spec fn take_mzlist(b: Seq<u8>, pos: int) -> Parsed<Seq<MzEntryV>> {
    match take_u64(b, pos) {
        Parsed::Found(n, p) => take_mz_entries(b, p, n as nat),
        _ => Parsed::Short,
    }
}

enum MzRead {
    Got(Entry, usize),
    Short,
    Bad,
}

fn read_mz_entry(bytes: &[u8], pos: usize) -> (r: MzRead)
    ensures
        (take_mz_entry(bytes@, pos as int) matches Parsed::Found(ev, p) ==> (r matches MzRead::Got(
            e,
            q,
        ) && e@ == ev && q == p)),
        take_mz_entry(bytes@, pos as int) is Short ==> r is Short,
        take_mz_entry(bytes@, pos as int) is Invalid ==> r is Bad,
{
    let (path, p1) = match crate::meowzip::read_lp_str(bytes, pos) {
        crate::meowzip::LpStrRead::Got(s, p) => (s, p),
        crate::meowzip::LpStrRead::Short => {
            return MzRead::Short;
        },
        crate::meowzip::LpStrRead::Bad => {
            return MzRead::Bad;
        },
    };
    let (size64, p2) = match read_u64_be(bytes, p1) {
        Some(x) => x,
        None => {
            return MzRead::Short;
        },
    };
    let (mode, p3) = match read_u32_be(bytes, p2) {
        Some(x) => x,
        None => {
            return MzRead::Short;
        },
    };
    let (uid, p4) = match read_u32_be(bytes, p3) {
        Some(x) => x,
        None => {
            return MzRead::Short;
        },
    };
    let (gid, p5) = match read_u32_be(bytes, p4) {
        Some(x) => x,
        None => {
            return MzRead::Short;
        },
    };
    let (hash, p6) = match read_u64_be(bytes, p5) {
        Some(x) => x,
        None => {
            return MzRead::Short;
        },
    };
    if size64 > usize::MAX as u64 {
        return MzRead::Bad;
    }
    let e = Entry { path, size: size64 as usize, mode, uid, gid, hash };
    MzRead::Got(e, p6)
}

/// Parses an installed-files list at the start of `bytes`; yields the
/// rows and the position after them, mirroring [`take_mzlist`].
pub fn get_filelist(bytes: &[u8]) -> (r: Result<(Vec<Entry>, usize), MeowError>)
    ensures
        (take_mzlist(bytes@, 0) matches Parsed::Found(es, p) ==> (r matches Ok(v) && mz_view(v.0@)
            == es && v.1 == p)),
        take_mzlist(bytes@, 0) is Short ==> (r matches Err(e) && e is Truncated),
        take_mzlist(bytes@, 0) is Invalid ==> (r matches Err(e) && (e is BadUtf8
            || e is TooLarge)),
{
    let (count, p0) = match read_u64_be(bytes, 0) {
        Some(x) => x,
        None => {
            return Err(MeowError::Truncated);
        },
    };
    let mut out: Vec<Entry> = Vec::new();
    let mut pos: usize = p0;
    let mut i: u64 = 0;
    proof {
        assert(mz_view(out@) =~= Seq::<MzEntryV>::empty());
    }
    while i < count
        invariant
            0 <= i <= count,
            out@.len() == i,
            take_mzlist(bytes@, 0) == take_mz_entries(bytes@, p0 as int, count as nat),
            take_mz_entries(bytes@, p0 as int, count as nat) == (match take_mz_entries(
                bytes@,
                pos as int,
                (count - i) as nat,
            ) {
                Parsed::Found(es, p) => Parsed::Found(mz_view(out@) + es, p),
                Parsed::Short => Parsed::<Seq<MzEntryV>>::Short,
                Parsed::Invalid => Parsed::<Seq<MzEntryV>>::Invalid,
            }),
        decreases count - i,
    {
        let ghost fl_before = mz_view(out@);
        match read_mz_entry(bytes, pos) {
            MzRead::Got(e, p) => {
                proof {
                    let rest_n = (count - i) as nat;
                    assert(take_mz_entries(bytes@, pos as int, rest_n) == (
                    match take_mz_entries(bytes@, p as int, (rest_n - 1) as nat) {
                        Parsed::Found(es, q) => Parsed::Found(seq![e@] + es, q),
                        Parsed::Short => Parsed::<Seq<MzEntryV>>::Short,
                        Parsed::Invalid => Parsed::<Seq<MzEntryV>>::Invalid,
                    }));
                }
                out.push(e);
                pos = p;
                proof {
                    assert(mz_view(out@) =~= fl_before.push(out@.last()@));
                    if let Parsed::Found(es, q) = take_mz_entries(
                        bytes@,
                        pos as int,
                        (count - i - 1) as nat,
                    ) {
                        assert(fl_before + (seq![out@.last()@] + es) =~= fl_before.push(
                            out@.last()@,
                        ) + es);
                    }
                }
            },
            MzRead::Short => {
                return Err(MeowError::Truncated);
            },
            MzRead::Bad => {
                return Err(MeowError::BadUtf8);
            },
        }
        i = i + 1;
    }
    proof {
        assert(mz_view(out@) + Seq::<MzEntryV>::empty() =~= mz_view(out@));
    }
    Ok((out, pos))
}

/// The encoded size of a list, as [`enc_mzlist`] lays it out; refused
/// when it does not fit in this machine's address space.
pub fn split_archive(filelist: &Vec<Entry>) -> (r: Result<usize, MeowError>)
    ensures
        (r matches Ok(n) ==> n == enc_mzlist(mz_view(filelist@)).len()),
        r is Ok <==> enc_mzlist(mz_view(filelist@)).len() <= usize::MAX,
        r matches Err(e) ==> e is TooLarge,
{
    let ghost ev = mz_view(filelist@);
    let mut acc: usize = 8;
    let n = filelist.len();
    proof {
        assert(ev.take(0) =~= Seq::<MzEntryV>::empty());
        lemma_enc_mz_len_mono(ev, 0);
    }
    for i in 0..n
        invariant
            n == filelist@.len(),
            ev == mz_view(filelist@),
            acc == 8 + enc_mz_entries(ev.take(i as int)).len(),
            enc_mz_entries(ev.take(i as int)).len() <= enc_mz_entries(ev).len(),
        decreases n - i,
    {
        let pl = filelist[i].path.as_str().as_bytes().len();
        proof {
            assert(ev.take(i as int).push(ev[i as int]) =~= ev.take(i + 1));
            assert(ev.take(i + 1).drop_last() =~= ev.take(i as int));
            assert(enc_mz_entry(ev[i as int]).len() == 36 + pl);
            lemma_enc_mz_len_mono(ev, i + 1);
        }
        if pl > usize::MAX - 36 || acc > usize::MAX - 36 - pl {
            proof {
                assert(enc_mzlist(ev).len() > usize::MAX);
            }
            return Err(MeowError::TooLarge);
        }
        acc = acc + 36 + pl;
    }
    proof {
        assert(ev.take(n as int) =~= ev);
    }
    Ok(acc)
}

proof fn lemma_enc_mz_len_mono(es: Seq<MzEntryV>, i: int)
    requires
        0 <= i <= es.len(),
    ensures
        enc_mz_entries(es.take(i)).len() <= enc_mz_entries(es).len(),
    decreases es.len() - i,
{
    if i == es.len() {
        assert(es.take(i) =~= es);
    } else {
        assert(es.take(i + 1).drop_last() =~= es.take(i));
        lemma_enc_mz_len_mono(es, i + 1);
    }
}

/// Serialises an installed-files list: the count, then the rows.
pub fn write_mzlist(mzlist: &Vec<Entry>) -> (r: Vec<u8>)
    ensures
        r@ == enc_mzlist(mz_view(mzlist@)),
{
    let ghost ev = mz_view(mzlist@);
    let mut out: Vec<u8> = Vec::new();
    push_u64_be(&mut out, mzlist.len() as u64);
    let ghost head = out@;
    let n = mzlist.len();
    proof {
        assert(ev.take(0) =~= Seq::<MzEntryV>::empty());
        assert(out@ =~= head + enc_mz_entries(ev.take(0)));
    }
    for i in 0..n
        invariant
            n == mzlist@.len(),
            ev == mz_view(mzlist@),
            head == be64(n as u64),
            out@ == head + enc_mz_entries(ev.take(i as int)),
        decreases n - i,
    {
        let e = &mzlist[i];
        push_lp_str(&mut out, e.path.as_str());
        push_u64_be(&mut out, e.size as u64);
        push_u32_be(&mut out, e.mode);
        push_u32_be(&mut out, e.uid);
        push_u32_be(&mut out, e.gid);
        push_u64_be(&mut out, e.hash);
        proof {
            assert(ev.take(i as int).push(ev[i as int]) =~= ev.take(i + 1));
            assert(ev.take(i + 1).drop_last() =~= ev.take(i as int));
            assert(out@ =~= head + enc_mz_entries(ev.take(i + 1)));
        }
    }
    proof {
        assert(ev.take(n as int) =~= ev);
    }
    out
}

/// How many body bytes one row contributes to the archive stream.
pub open spec fn mz_body_len(e: MzEntryV) -> nat {
    if spec_file_kind(e.mode) == Some(FileKind::Directory) {
        0
    } else {
        e.size as nat
    }
}

pub open spec fn mz_bodies_match(es: Seq<MzEntryV>, bodies: Seq<Seq<u8>>) -> bool {
    &&& bodies.len() == es.len()
    &&& forall|i: int| 0 <= i < es.len() ==> (#[trigger] bodies[i]).len() == mz_body_len(es[i])
}

/// Serialises a whole archive stream: the list, then every body in list
/// order, directories contributing nothing.
pub fn write_archive(mzlist: &Vec<Entry>, bodies: &Vec<Vec<u8>>) -> (r: Vec<u8>)
    requires
        mz_bodies_match(mz_view(mzlist@), crate::archive::bodies_view(bodies@)),
    ensures
        r@ == enc_mzlist(mz_view(mzlist@)) + crate::archive::concat_bodies(
            crate::archive::bodies_view(bodies@),
        ),
{
    let mut out = write_mzlist(mzlist);
    let mut payload = crate::archive::concat_payload(bodies);
    out.append(&mut payload);
    proof {
        assert(out@ =~= enc_mzlist(mz_view(mzlist@)) + crate::archive::concat_bodies(
            crate::archive::bodies_view(bodies@),
        ));
    }
    out
}

proof fn lemma_enc_mz_entries_head(es: Seq<MzEntryV>)
    requires
        es.len() > 0,
    ensures
        enc_mz_entries(es) == enc_mz_entry(es[0]) + enc_mz_entries(es.drop_first()),
    decreases es.len(),
{
    if es.len() == 1 {
        assert(es.drop_last() =~= Seq::<MzEntryV>::empty());
        assert(es.drop_first() =~= Seq::<MzEntryV>::empty());
        assert(es.last() == es[0]);
        assert(enc_mz_entries(es.drop_last()) == Seq::<u8>::empty());
        assert(enc_mz_entries(es.drop_first()) == Seq::<u8>::empty());
        assert(Seq::<u8>::empty() + enc_mz_entry(es[0]) =~= enc_mz_entry(es[0]) + Seq::<
            u8,
        >::empty());
    } else {
        lemma_enc_mz_entries_head(es.drop_last());
        assert(es.drop_last()[0] == es[0]);
        assert(es.drop_last().drop_first() =~= es.drop_first().drop_last());
        assert(es.drop_first().last() == es.last());
        assert(enc_mz_entries(es.drop_first()) == enc_mz_entries(es.drop_first().drop_last())
            + enc_mz_entry(es.last()));
        assert((enc_mz_entry(es[0]) + enc_mz_entries(es.drop_first().drop_last())) + enc_mz_entry(
            es.last(),
        ) =~= enc_mz_entry(es[0]) + (enc_mz_entries(es.drop_first().drop_last()) + enc_mz_entry(
            es.last(),
        )));
    }
}

proof fn lemma_take_mz_entry_at(b: Seq<u8>, pos: int, e: MzEntryV)
    requires
        0 <= pos,
        vstd::utf8::encode_utf8(e.path).len() <= u64::MAX,
        e.size <= usize::MAX,
        pos + enc_mz_entry(e).len() <= b.len(),
        b.subrange(pos, pos + enc_mz_entry(e).len()) == enc_mz_entry(e),
    ensures
        take_mz_entry(b, pos) == Parsed::<MzEntryV>::Found(e, pos + enc_mz_entry(e).len()),
{
    let ee = enc_mz_entry(e);
    let pl = 8 + vstd::utf8::encode_utf8(e.path).len() as int;
    assert(ee.subrange(0, pl) =~= lp_str(e.path));
    crate::meowzip::lemma_subrange_of_eq(b, pos, ee, 0, lp_str(e.path));
    crate::meowzip::lemma_take_lp_str_at(b, pos, e.path);
    assert(ee.subrange(pl, pl + 8) =~= be64(e.size));
    crate::meowzip::lemma_subrange_of_eq(b, pos, ee, pl, be64(e.size));
    crate::meowzip::lemma_take_u64_at(b, pos + pl, e.size);
    assert(ee.subrange(pl + 8, pl + 12) =~= be32(e.mode));
    crate::meowzip::lemma_subrange_of_eq(b, pos, ee, pl + 8, be32(e.mode));
    crate::meowzip::lemma_take_u32_at(b, pos + pl + 8, e.mode);
    assert(ee.subrange(pl + 12, pl + 16) =~= be32(e.uid));
    crate::meowzip::lemma_subrange_of_eq(b, pos, ee, pl + 12, be32(e.uid));
    crate::meowzip::lemma_take_u32_at(b, pos + pl + 12, e.uid);
    assert(ee.subrange(pl + 16, pl + 20) =~= be32(e.gid));
    crate::meowzip::lemma_subrange_of_eq(b, pos, ee, pl + 16, be32(e.gid));
    crate::meowzip::lemma_take_u32_at(b, pos + pl + 16, e.gid);
    assert(ee.subrange(pl + 20, pl + 28) =~= be64(e.hash));
    crate::meowzip::lemma_subrange_of_eq(b, pos, ee, pl + 20, be64(e.hash));
    crate::meowzip::lemma_take_u64_at(b, pos + pl + 20, e.hash);
    if let Parsed::Found(ev, q) = take_mz_entry(b, pos) {
        assert(ev =~= e);
    }
}

#[verifier::rlimit(100)]
#[verifier::spinoff_prover]
proof fn lemma_take_mz_entries_at(b: Seq<u8>, pos: int, es: Seq<MzEntryV>)
    requires
        0 <= pos,
        pos + enc_mz_entries(es).len() <= b.len(),
        b.subrange(pos, pos + enc_mz_entries(es).len()) == enc_mz_entries(es),
        forall|i: int|
            0 <= i < es.len() ==> vstd::utf8::encode_utf8(#[trigger] es[i].path).len()
                <= u64::MAX,
        forall|i: int| 0 <= i < es.len() ==> (#[trigger] es[i]).size <= usize::MAX,
    ensures
        take_mz_entries(b, pos, es.len()) == Parsed::<Seq<MzEntryV>>::Found(
            es,
            pos + enc_mz_entries(es).len(),
        ),
    decreases es.len(),
{
    if es.len() == 0 {
        assert(take_mz_entries(b, pos, 0) == Parsed::<Seq<MzEntryV>>::Found(Seq::empty(), pos));
        assert(Seq::<MzEntryV>::empty() =~= es);
    } else {
        lemma_enc_mz_entries_head(es);
        let e = es[0];
        let whole = enc_mz_entries(es);
        let el = enc_mz_entry(e).len() as int;
        assert(whole.subrange(0, el) =~= enc_mz_entry(e));
        crate::meowzip::lemma_subrange_of_eq(b, pos, whole, 0, enc_mz_entry(e));
        lemma_take_mz_entry_at(b, pos, e);
        assert(whole.subrange(el, el + enc_mz_entries(es.drop_first()).len() as int)
            =~= enc_mz_entries(es.drop_first()));
        crate::meowzip::lemma_subrange_of_eq(b, pos, whole, el, enc_mz_entries(es.drop_first()));
        assert(forall|i: int|
            0 <= i < es.drop_first().len() ==> vstd::utf8::encode_utf8(
                #[trigger] es.drop_first()[i].path,
            ).len() <= u64::MAX);
        assert(forall|i: int|
            0 <= i < es.drop_first().len() ==> (#[trigger] es.drop_first()[i]).size
                <= usize::MAX);
        lemma_take_mz_entries_at(b, pos + el, es.drop_first());
        assert(seq![e] + es.drop_first() =~= es);
    }
}

/// Round trip of the installed-files list: a serialised list, with the
/// archive bodies behind it, reads back exactly.
#[verifier::rlimit(100)]
#[verifier::spinoff_prover]
pub proof fn lemma_mzlist_round_trip(es: Seq<MzEntryV>, rest: Seq<u8>)
    requires
        es.len() <= u64::MAX,
        forall|i: int|
            0 <= i < es.len() ==> vstd::utf8::encode_utf8(#[trigger] es[i].path).len()
                <= u64::MAX,
        forall|i: int| 0 <= i < es.len() ==> (#[trigger] es[i]).size <= usize::MAX,
    ensures
        take_mzlist(enc_mzlist(es) + rest, 0) == Parsed::<Seq<MzEntryV>>::Found(
            es,
            enc_mzlist(es).len() as int,
        ),
{
    let b = enc_mzlist(es) + rest;
    assert(b.subrange(0, enc_mzlist(es).len() as int) =~= enc_mzlist(es));
    crate::meowzip::lemma_peel_in(b, be64(es.len() as u64), enc_mz_entries(es));
    crate::meowzip::lemma_take_u64_at(b, 0, es.len() as u64);
    lemma_take_mz_entries_at(b, 8, es);
    assert((es.len() as u64) as nat == es.len());
}

} // verus!
