//! The installed-package database, modelled as two association tables:
//! packages by name and files by path. The install and remove
//! transactions are functions from database to database, with the
//! index-bookkeeping invariants proved on them.

use vstd::prelude::*;

use crate::errors::{spec_file_kind, FileKind};
use crate::meowzip::{EntryV, MetaV, MeowZipMetadata};
use crate::records::{spec_record_of, FileRecord, RecordV};

verus! {

// ---------------------------------------------------------------------------
// Association tables as maps
// ---------------------------------------------------------------------------

/// The map a key-value row vector denotes; a later row wins over an
/// earlier one with the same key.
pub open spec fn assoc_map<T: View>(s: Seq<(String, T)>) -> Map<Seq<char>, T::V>
    decreases s.len(),
{
    if s.len() == 0 {
        Map::empty()
    } else {
        assoc_map(s.drop_last()).insert(s.last().0@, s.last().1@)
    }
}

/// No two rows share a key.
pub open spec fn unique_keys<T>(s: Seq<(String, T)>) -> bool {
    forall|i: int, j: int| 0 <= i < j < s.len() ==> (#[trigger] s[i]).0@ != (#[trigger] s[j]).0@
}

/// Some row carries this key.
pub open spec fn key_in<T>(s: Seq<(String, T)>, k: Seq<char>) -> bool {
    exists|i: int| 0 <= i < s.len() && (#[trigger] s[i]).0@ == k
}

pub proof fn lemma_assoc_map_dom<T: View>(s: Seq<(String, T)>, k: Seq<char>)
    ensures
        assoc_map(s).contains_key(k) == key_in(s, k),
    decreases s.len(),
{
    if s.len() == 0 {
    } else {
        lemma_assoc_map_dom(s.drop_last(), k);
        if s.last().0@ == k {
            assert(s[s.len() - 1].0@ == k);
        } else {
            if key_in(s.drop_last(), k) {
                let i = choose|i: int| 0 <= i < s.drop_last().len() && (#[trigger] s.drop_last()[i]).0@ == k;
                assert(s[i].0@ == k);
            }
            if key_in(s, k) {
                let i = choose|i: int| 0 <= i < s.len() && (#[trigger] s[i]).0@ == k;
                assert(i < s.len() - 1);
                assert(s.drop_last()[i].0@ == k);
            }
        }
    }
}

pub proof fn lemma_assoc_map_get<T: View>(s: Seq<(String, T)>, i: int)
    requires
        unique_keys(s),
        0 <= i < s.len(),
    ensures
        assoc_map(s).contains_key(s[i].0@),
        assoc_map(s)[s[i].0@] == s[i].1@,
    decreases s.len(),
{
    if i == s.len() - 1 {
    } else {
        assert(s.drop_last()[i] == s[i]);
        assert(unique_keys(s.drop_last())) by {
            assert(forall|a: int, b: int|
                0 <= a < b < s.drop_last().len() ==> (#[trigger] s.drop_last()[a]) == s[a]
                    && (#[trigger] s.drop_last()[b]) == s[b]);
        }
        lemma_assoc_map_get(s.drop_last(), i);
        assert(s[i].0@ != s.last().0@);
    }
}

pub proof fn lemma_assoc_map_dom_len<T: View>(s: Seq<(String, T)>)
    requires
        unique_keys(s),
    ensures
        assoc_map(s).dom().finite(),
        assoc_map(s).dom().len() == s.len(),
    decreases s.len(),
{
    if s.len() == 0 {
    } else {
        assert(unique_keys(s.drop_last())) by {
            assert(forall|a: int, b: int|
                0 <= a < b < s.drop_last().len() ==> (#[trigger] s.drop_last()[a]) == s[a] && (
                #[trigger] s.drop_last()[b]) == s[b]);
        }
        lemma_assoc_map_dom_len(s.drop_last());
        lemma_assoc_map_dom(s.drop_last(), s.last().0@);
        assert(!key_in(s.drop_last(), s.last().0@)) by {
            if key_in(s.drop_last(), s.last().0@) {
                let i = choose|i: int|
                    0 <= i < s.drop_last().len() && (#[trigger] s.drop_last()[i]).0@ == s.last().0@;
                assert(s[i].0@ == s[s.len() - 1].0@);
            }
        }
        assert(assoc_map(s).dom() =~= assoc_map(s.drop_last()).dom().insert(s.last().0@));
    }
}

/// One step of copying a row table while dropping a key set: the row at
/// `i` carries a dropped key, so the copy is unchanged.
pub proof fn lemma_filter_row_skip<T: View>(
    src: Seq<(String, T)>,
    i: int,
    dset: Set<Seq<char>>,
    kept: Seq<(String, T)>,
)
    requires
        0 <= i < src.len(),
        dset.contains(src[i].0@),
        assoc_map(kept) == assoc_map(src.take(i)).remove_keys(dset),
    ensures
        assoc_map(kept) == assoc_map(src.take(i + 1)).remove_keys(dset),
{
    assert(src.take(i).push(src[i]) =~= src.take(i + 1));
    assert(src.take(i + 1).drop_last() =~= src.take(i));
    assert(assoc_map(src.take(i + 1)) == assoc_map(src.take(i)).insert(src[i].0@, src[i].1@));
    assert(assoc_map(src.take(i)).insert(src[i].0@, src[i].1@).remove_keys(dset) =~= assoc_map(
        src.take(i),
    ).remove_keys(dset));
}

/// One step of copying a row table while dropping a key set: the row at
/// `i` survives and lands at the end of the copy.
pub proof fn lemma_filter_row_keep<T: View>(
    src: Seq<(String, T)>,
    i: int,
    dset: Set<Seq<char>>,
    kept_before: Seq<(String, T)>,
    kept: Seq<(String, T)>,
)
    requires
        unique_keys(src),
        0 <= i < src.len(),
        !dset.contains(src[i].0@),
        kept.len() == kept_before.len() + 1,
        kept.drop_last() == kept_before,
        kept.last().0@ == src[i].0@,
        kept.last().1@ == src[i].1@,
        assoc_map(kept_before) == assoc_map(src.take(i)).remove_keys(dset),
        unique_keys(kept_before),
        forall|a: int|
            0 <= a < kept_before.len() ==> key_in(src.take(i), (#[trigger] kept_before[a]).0@),
    ensures
        assoc_map(kept) == assoc_map(src.take(i + 1)).remove_keys(dset),
        unique_keys(kept),
        forall|a: int| 0 <= a < kept.len() ==> key_in(src.take(i + 1), (#[trigger] kept[a]).0@),
{
    let k = src[i].0@;
    assert(src.take(i).push(src[i]) =~= src.take(i + 1));
    assert(src.take(i + 1).drop_last() =~= src.take(i));
    assert(assoc_map(src.take(i + 1)) == assoc_map(src.take(i)).insert(k, src[i].1@));
    assert(assoc_map(kept) == assoc_map(kept_before).insert(k, src[i].1@));
    assert(assoc_map(src.take(i)).insert(k, src[i].1@).remove_keys(dset) =~= assoc_map(
        src.take(i),
    ).remove_keys(dset).insert(k, src[i].1@));
    assert forall|a: int| 0 <= a < kept_before.len() implies (#[trigger] kept_before[a]).0@
        != k by {
        if kept_before[a].0@ == k {
            let b = choose|b: int|
                0 <= b < src.take(i).len() && (#[trigger] src.take(i)[b]).0@ == kept_before[a].0@;
            assert(src[b].0@ == k);
            assert(src[i].0@ == k);
        }
    }
    assert forall|a: int, b: int|
        0 <= a < b < kept.len() implies (#[trigger] kept[a]).0@ != (#[trigger] kept[b]).0@ by {
        if b < kept.len() - 1 {
            assert(kept[a] == kept_before[a] && kept[b] == kept_before[b]);
        } else {
            assert(kept[a] == kept_before[a]);
        }
    }
    assert forall|a: int| 0 <= a < kept.len() implies key_in(
        src.take(i + 1),
        (#[trigger] kept[a]).0@,
    ) by {
        if a < kept.len() - 1 {
            assert(kept[a] == kept_before[a]);
            let b = choose|b: int|
                0 <= b < src.take(i).len() && (#[trigger] src.take(i)[b]).0@ == kept_before[a].0@;
            assert(src.take(i + 1)[b].0@ == kept[a].0@);
        } else {
            assert(src.take(i + 1)[i].0@ == kept[a].0@);
        }
    }
}

// ---------------------------------------------------------------------------
// The database value
// ---------------------------------------------------------------------------

/// The installed-package database: the packages table and the files
/// table, as in-memory rows.
pub struct MeowDb {
    pkgs: Vec<(String, MeowZipMetadata)>,
    files: Vec<(String, FileRecord)>,
}

impl MeowDb {
    /// The packages table: name to metadata.
    pub closed spec fn pkgs_map(self) -> Map<Seq<char>, MetaV> {
        assoc_map(self.pkgs@)
    }

    /// The files table: absolute path to owning record.
    pub closed spec fn files_map(self) -> Map<Seq<char>, RecordV> {
        assoc_map(self.files@)
    }

    /// Well-formed: both tables keyed uniquely, and no files row for a
    /// directory.
    pub closed spec fn wf(self) -> bool {
        &&& unique_keys(self.pkgs@)
        &&& unique_keys(self.files@)
        &&& forall|i: int|
            0 <= i < self.files@.len() ==> spec_file_kind((#[trigger] self.files@[i]).1.mode)
                != Some(FileKind::Directory)
    }

    /// An empty database, as on first open.
    pub fn new() -> (r: MeowDb)
        ensures
            r.wf(),
            r.pkgs_map() == Map::<Seq<char>, MetaV>::empty(),
            r.files_map() == Map::<Seq<char>, RecordV>::empty(),
    {
        MeowDb { pkgs: Vec::new(), files: Vec::new() }
    }

    /// The rows of the packages table, one per installed package.
    pub fn packages(&self) -> (r: &Vec<(String, MeowZipMetadata)>)
        requires
            self.wf(),
        ensures
            assoc_map(r@) == self.pkgs_map(),
            forall|i: int|
                0 <= i < r@.len() ==> self.pkgs_map().contains_key((#[trigger] r@[i]).0@)
                    && self.pkgs_map()[r@[i].0@] == r@[i].1@,
            forall|k: Seq<char>|
                self.pkgs_map().contains_key(k) ==> exists|i: int|
                    0 <= i < r@.len() && (#[trigger] r@[i]).0@ == k,
            forall|i: int, j: int|
                0 <= i < j < r@.len() ==> (#[trigger] r@[i]).0@ != (#[trigger] r@[j]).0@,
    {
        proof {
            assert forall|i: int| 0 <= i < self.pkgs@.len() implies self.pkgs_map().contains_key(
                (#[trigger] self.pkgs@[i]).0@,
            ) && self.pkgs_map()[self.pkgs@[i].0@] == self.pkgs@[i].1@ by {
                lemma_assoc_map_get(self.pkgs@, i);
            }
            assert forall|k: Seq<char>| self.pkgs_map().contains_key(k) implies exists|i: int|
                0 <= i < self.pkgs@.len() && (#[trigger] self.pkgs@[i]).0@ == k by {
                lemma_assoc_map_dom(self.pkgs@, k);
            }
        }
        &self.pkgs
    }

    /// The rows of the files table, one per installed path.
    pub fn files(&self) -> (r: &Vec<(String, FileRecord)>)
        requires
            self.wf(),
        ensures
            assoc_map(r@) == self.files_map(),
            forall|i: int|
                0 <= i < r@.len() ==> self.files_map().contains_key((#[trigger] r@[i]).0@)
                    && self.files_map()[r@[i].0@] == r@[i].1@,
            forall|k: Seq<char>|
                self.files_map().contains_key(k) ==> exists|i: int|
                    0 <= i < r@.len() && (#[trigger] r@[i]).0@ == k,
            forall|i: int, j: int|
                0 <= i < j < r@.len() ==> (#[trigger] r@[i]).0@ != (#[trigger] r@[j]).0@,
    {
        proof {
            assert forall|i: int| 0 <= i < self.files@.len() implies self.files_map().contains_key(
                (#[trigger] self.files@[i]).0@,
            ) && self.files_map()[self.files@[i].0@] == self.files@[i].1@ by {
                lemma_assoc_map_get(self.files@, i);
            }
            assert forall|k: Seq<char>| self.files_map().contains_key(k) implies exists|i: int|
                0 <= i < self.files@.len() && (#[trigger] self.files@[i]).0@ == k by {
                lemma_assoc_map_dom(self.files@, k);
            }
        }
        &self.files
    }

    /// Looks a package up by name.
    pub fn get_package(&self, name: &String) -> (r: Option<&MeowZipMetadata>)
        requires
            self.wf(),
        ensures
            (r matches Some(m) ==> self.pkgs_map().contains_key(name@) && self.pkgs_map()[name@]
                == m@),
            r is None ==> !self.pkgs_map().contains_key(name@),
    {
        let n = self.pkgs.len();
        for i in 0..n
            invariant
                n == self.pkgs@.len(),
                self.wf(),
                forall|k: int| 0 <= k < i ==> (#[trigger] self.pkgs@[k]).0@ != name@,
            decreases n - i,
        {
            if self.pkgs[i].0 == *name {
                proof {
                    lemma_assoc_map_get(self.pkgs@, i as int);
                }
                return Some(&self.pkgs[i].1);
            }
        }
        proof {
            lemma_assoc_map_dom(self.pkgs@, name@);
        }
        None
    }

    /// Looks a file row up by absolute path.
    pub fn get_file(&self, path: &String) -> (r: Option<&FileRecord>)
        requires
            self.wf(),
        ensures
            (r matches Some(rec) ==> self.files_map().contains_key(path@)
                && self.files_map()[path@] == rec@),
            r is None ==> !self.files_map().contains_key(path@),
    {
        let n = self.files.len();
        for i in 0..n
            invariant
                n == self.files@.len(),
                self.wf(),
                forall|k: int| 0 <= k < i ==> (#[trigger] self.files@[k]).0@ != path@,
            decreases n - i,
        {
            if self.files[i].0 == *path {
                proof {
                    lemma_assoc_map_get(self.files@, i as int);
                }
                return Some(&self.files[i].1);
            }
        }
        proof {
            lemma_assoc_map_dom(self.files@, path@);
        }
        None
    }

    /// The installed package names, in table order: exactly the keys of
    /// the packages table, each once.
    pub fn package_names(&self) -> (r: Vec<String>)
        requires
            self.wf(),
        ensures
            forall|i: int| 0 <= i < r@.len() ==> self.pkgs_map().contains_key(
                (#[trigger] r@[i])@,
            ),
            forall|k: Seq<char>| self.pkgs_map().contains_key(k) ==> exists|i: int|
                0 <= i < r@.len() && (#[trigger] r@[i])@ == k,
            forall|i: int, j: int| 0 <= i < j < r@.len() ==> (#[trigger] r@[i])@ != (
            #[trigger] r@[j])@,
    {
        let mut out: Vec<String> = Vec::new();
        let n = self.pkgs.len();
        for i in 0..n
            invariant
                n == self.pkgs@.len(),
                self.wf(),
                out@.len() == i,
                forall|k: int| 0 <= k < i ==> (#[trigger] out@[k])@ == self.pkgs@[k].0@,
            decreases n - i,
        {
            out.push(self.pkgs[i].0.clone());
        }
        proof {
            assert forall|i: int| 0 <= i < out@.len() implies self.pkgs_map().contains_key(
                (#[trigger] out@[i])@,
            ) by {
                lemma_assoc_map_dom(self.pkgs@, out@[i]@);
            }
            assert forall|k: Seq<char>| self.pkgs_map().contains_key(k) implies exists|i: int|
                0 <= i < out@.len() && (#[trigger] out@[i])@ == k by {
                lemma_assoc_map_dom(self.pkgs@, k);
                let i = choose|i: int| 0 <= i < self.pkgs@.len() && (#[trigger] self.pkgs@[i]).0@ == k;
                assert(out@[i]@ == k);
            }
        }
        out
    }

    /// Rebuilds a database from persisted rows; refused exactly when the
    /// rows do not form a well-formed database: a duplicate key in either
    /// table, or a files row whose mode names a directory.
    pub fn from_rows(pkgs: Vec<(String, MeowZipMetadata)>, files: Vec<(String, FileRecord)>) -> (r:
        Option<MeowDb>)
        ensures
            r is Some <==> (unique_keys(pkgs@) && unique_keys(files@) && (forall|i: int|
                0 <= i < files@.len() ==> spec_file_kind((#[trigger] files@[i]).1.mode) != Some(
                    FileKind::Directory,
                ))),
            (r matches Some(db) ==> {
                &&& db.wf()
                &&& db.pkgs_map() == assoc_map(pkgs@)
                &&& db.files_map() == assoc_map(files@)
            }),
    {
        let np = pkgs.len();
        for i in 0..np
            invariant
                np == pkgs@.len(),
                forall|a: int, b: int|
                    0 <= a < b < i ==> (#[trigger] pkgs@[a]).0@ != (#[trigger] pkgs@[b]).0@,
            decreases np - i,
        {
            for j in 0..i
                invariant
                    i < np == pkgs@.len(),
                    forall|a: int, b: int|
                        0 <= a < b < i ==> (#[trigger] pkgs@[a]).0@ != (#[trigger] pkgs@[b]).0@,
                    forall|a: int| 0 <= a < j ==> (#[trigger] pkgs@[a]).0@ != pkgs@[i as int].0@,
                decreases i - j,
            {
                if pkgs[j].0 == pkgs[i].0 {
                    proof {
                        assert(pkgs@[j as int].0@ == pkgs@[i as int].0@);
                        assert(!unique_keys(pkgs@));
                    }
                    return None;
                }
            }
        }
        let nf = files.len();
        for i in 0..nf
            invariant
                nf == files@.len(),
                forall|a: int, b: int|
                    0 <= a < b < i ==> (#[trigger] files@[a]).0@ != (#[trigger] files@[b]).0@,
                forall|a: int|
                    0 <= a < i ==> spec_file_kind((#[trigger] files@[a]).1.mode) != Some(
                        FileKind::Directory,
                    ),
            decreases nf - i,
        {
            if crate::errors::file_kind_of_mode(files[i].1.mode) == Some(FileKind::Directory) {
                proof {
                    assert(spec_file_kind(files@[i as int].1.mode) == Some(FileKind::Directory));
                }
                return None;
            }
            for j in 0..i
                invariant
                    i < nf == files@.len(),
                    forall|a: int, b: int|
                        0 <= a < b < i ==> (#[trigger] files@[a]).0@ != (#[trigger] files@[b]).0@,
                    forall|a: int| 0 <= a < j ==> (#[trigger] files@[a]).0@ != files@[i as int].0@,
                decreases i - j,
            {
                if files[j].0 == files[i].0 {
                    proof {
                        assert(files@[j as int].0@ == files@[i as int].0@);
                        assert(!unique_keys(files@));
                    }
                    return None;
                }
            }
        }
        Some(MeowDb { pkgs, files })
    }
}

// ---------------------------------------------------------------------------
// The install and remove transactions, as map transformers
// ---------------------------------------------------------------------------

/// Some entry of the manifest carries this path.
pub open spec fn has_path(es: Seq<EntryV>, p: Seq<char>) -> bool {
    exists|i: int| 0 <= i < es.len() && (#[trigger] es[i]).path == p
}

/// An entry that is not a directory: only these get file rows.
pub open spec fn is_nondir(e: EntryV) -> bool {
    spec_file_kind(e.mode) != Some(FileKind::Directory)
}

/// Some non-directory entry of the manifest carries this path.
pub open spec fn has_nondir_path(es: Seq<EntryV>, p: Seq<char>) -> bool {
    exists|i: int| 0 <= i < es.len() && (#[trigger] es[i]).path == p && is_nondir(es[i])
}

/// No two entries share a path: one entry per path in an archive.
pub open spec fn unique_paths(es: Seq<EntryV>) -> bool {
    forall|i: int, j: int| 0 <= i < j < es.len() ==> (#[trigger] es[i]).path != (#[trigger] es[j]).path
}

/// The row that ends up at a path: from the last non-directory entry
/// that carries it.
pub open spec fn last_record_at(es: Seq<EntryV>, p: Seq<char>, name: Seq<char>) -> Option<RecordV>
    decreases es.len(),
{
    if es.len() == 0 {
        None
    } else if is_nondir(es.last()) && es.last().path == p {
        Some(spec_record_of(es.last(), name))
    } else {
        last_record_at(es.drop_last(), p, name)
    }
}

/// The paths an upgrade abandons: shipped before, not shipped now.
pub open spec fn gone_paths(old: MetaV, new_meta: MetaV) -> Set<Seq<char>> {
    Set::new(|p: Seq<char>| has_path(old.filelist, p) && !has_path(new_meta.filelist, p))
}

/// All paths of a manifest, as removed on uninstall.
pub open spec fn all_paths(es: Seq<EntryV>) -> Set<Seq<char>> {
    Set::new(|p: Seq<char>| has_path(es, p))
}

/// Inserts a row for every non-directory entry, in manifest order.
pub open spec fn insert_all(
    files: Map<Seq<char>, RecordV>,
    name: Seq<char>,
    es: Seq<EntryV>,
) -> Map<Seq<char>, RecordV>
    decreases es.len(),
{
    if es.len() == 0 {
        files
    } else {
        let f = insert_all(files, name, es.drop_last());
        if is_nondir(es.last()) {
            f.insert(es.last().path, spec_record_of(es.last(), name))
        } else {
            f
        }
    }
}

/// What one committed install does to the files table: drop the rows of
/// abandoned paths, then write a row for every non-directory entry.
pub open spec fn spec_install_files(
    files: Map<Seq<char>, RecordV>,
    old: Option<MetaV>,
    m: MetaV,
) -> Map<Seq<char>, RecordV> {
    let base = match old {
        Some(o) => files.remove_keys(gone_paths(o, m)),
        None => files,
    };
    insert_all(base, m.name, m.filelist)
}

/// The previously installed metadata of this package, if any.
pub open spec fn spec_old_meta(pkgs: Map<Seq<char>, MetaV>, name: Seq<char>) -> Option<MetaV> {
    if pkgs.contains_key(name) {
        Some(pkgs[name])
    } else {
        None
    }
}

pub proof fn lemma_insert_all_char(
    files: Map<Seq<char>, RecordV>,
    name: Seq<char>,
    es: Seq<EntryV>,
    p: Seq<char>,
)
    ensures
        insert_all(files, name, es).contains_key(p) == (files.contains_key(p) || has_nondir_path(
            es,
            p,
        )),
        has_nondir_path(es, p) ==> insert_all(files, name, es)[p] == last_record_at(
            es,
            p,
            name,
        ).unwrap(),
        !has_nondir_path(es, p) && files.contains_key(p) ==> insert_all(files, name, es)[p]
            == files[p],
    decreases es.len(),
{
    if es.len() == 0 {
        assert(!has_nondir_path(es, p));
    } else {
        lemma_insert_all_char(files, name, es.drop_last(), p);
        let last = es.last();
        if is_nondir(last) && last.path == p {
            assert(has_nondir_path(es, p)) by {
                assert(es[es.len() - 1].path == p && is_nondir(es[es.len() - 1]));
            }
        } else {
            assert(has_nondir_path(es, p) == has_nondir_path(es.drop_last(), p)) by {
                if has_nondir_path(es, p) {
                    let i = choose|i: int|
                        0 <= i < es.len() && (#[trigger] es[i]).path == p && is_nondir(es[i]);
                    assert(i < es.len() - 1);
                    assert(es.drop_last()[i] == es[i]);
                }
                if has_nondir_path(es.drop_last(), p) {
                    let i = choose|i: int|
                        0 <= i < es.drop_last().len() && (#[trigger] es.drop_last()[i]).path == p
                            && is_nondir(es.drop_last()[i]);
                    assert(es[i] == es.drop_last()[i]);
                }
            }
        }
    }
}

/// The row written for a path always names the installing package.
proof fn lemma_last_record_package(es: Seq<EntryV>, p: Seq<char>, name: Seq<char>)
    requires
        has_nondir_path(es, p),
    ensures
        last_record_at(es, p, name) is Some,
        last_record_at(es, p, name).unwrap().package == name,
        spec_file_kind(last_record_at(es, p, name).unwrap().mode) != Some(FileKind::Directory),
    decreases es.len(),
{
    if es.len() == 0 {
    } else if is_nondir(es.last()) && es.last().path == p {
    } else {
        assert(has_nondir_path(es.drop_last(), p)) by {
            let i = choose|i: int|
                0 <= i < es.len() && (#[trigger] es[i]).path == p && is_nondir(es[i]);
            assert(i < es.len() - 1);
            assert(es.drop_last()[i] == es[i]);
        }
        lemma_last_record_package(es.drop_last(), p, name);
    }
}

/// Law: the files table never holds a row for a directory. Every row of
/// a well-formed database has a non-directory mode.
pub proof fn lemma_files_table_no_directories(db: MeowDb, p: Seq<char>)
    requires
        db.wf(),
        db.files_map().contains_key(p),
    ensures
        spec_file_kind(db.files_map()[p].mode) != Some(FileKind::Directory),
{
    lemma_assoc_map_dom(db.files@, p);
    let i = choose|i: int| 0 <= i < db.files@.len() && (#[trigger] db.files@[i]).0@ == p;
    lemma_assoc_map_get(db.files@, i);
}

/// Law: a committed install is idempotent on the database. Re-applying
/// the same metadata to the tables the first commit produced changes
/// neither table.
pub proof fn lemma_install_idempotent(
    pkgs: Map<Seq<char>, MetaV>,
    files: Map<Seq<char>, RecordV>,
    m: MetaV,
)
    ensures
        pkgs.insert(m.name, m).insert(m.name, m) == pkgs.insert(m.name, m),
        spec_install_files(
            spec_install_files(files, spec_old_meta(pkgs, m.name), m),
            spec_old_meta(pkgs.insert(m.name, m), m.name),
            m,
        ) == spec_install_files(files, spec_old_meta(pkgs, m.name), m),
{
    let f1 = spec_install_files(files, spec_old_meta(pkgs, m.name), m);
    assert(pkgs.insert(m.name, m).insert(m.name, m) =~= pkgs.insert(m.name, m));
    assert(spec_old_meta(pkgs.insert(m.name, m), m.name) == Some(m));
    let gone = gone_paths(m, m);
    assert(f1.remove_keys(gone) =~= f1) by {
        assert(forall|p: Seq<char>| !gone.contains(p));
    }
    let f2 = insert_all(f1, m.name, m.filelist);
    let base = match spec_old_meta(pkgs, m.name) {
        Some(o) => files.remove_keys(gone_paths(o, m)),
        None => files,
    };
    assert forall|p: Seq<char>| #[trigger] f2.contains_key(p) implies f1.contains_key(p) by {
        lemma_insert_all_char(base, m.name, m.filelist, p);
        lemma_insert_all_char(f1, m.name, m.filelist, p);
    }
    assert forall|p: Seq<char>| #[trigger] f1.contains_key(p) implies f2.contains_key(p)
        && f2[p] == f1[p] by {
        lemma_insert_all_char(base, m.name, m.filelist, p);
        lemma_insert_all_char(f1, m.name, m.filelist, p);
    }
    assert(f2.dom() =~= f1.dom());
    assert(f2 =~= f1);
}

// ---------------------------------------------------------------------------
// Executable transactions
// ---------------------------------------------------------------------------

/// Whether any manifest entry carries this path.
pub fn path_in_filelist(es: &Vec<crate::meowzip::MeowZipEntry>, p: &String) -> (r: bool)
    ensures
        r == has_path(crate::meowzip::entries_view(es@), p@),
{
    let ghost ev = crate::meowzip::entries_view(es@);
    let n = es.len();
    for i in 0..n
        invariant
            n == es@.len(),
            ev == crate::meowzip::entries_view(es@),
            forall|k: int| 0 <= k < i ==> (#[trigger] ev[k]).path != p@,
        decreases n - i,
    {
        if es[i].filepath == *p {
            proof {
                assert(ev[i as int].path == p@);
            }
            return true;
        }
    }
    false
}

/// Whether any non-directory manifest entry carries this path.
pub fn nondir_path_in_filelist(es: &Vec<crate::meowzip::MeowZipEntry>, p: &String) -> (r: bool)
    ensures
        r == has_nondir_path(crate::meowzip::entries_view(es@), p@),
{
    let ghost ev = crate::meowzip::entries_view(es@);
    let n = es.len();
    for i in 0..n
        invariant
            n == es@.len(),
            ev == crate::meowzip::entries_view(es@),
            forall|k: int|
                0 <= k < i ==> !((#[trigger] ev[k]).path == p@ && is_nondir(ev[k])),
        decreases n - i,
    {
        if es[i].filepath == *p && crate::errors::file_kind_of_mode(es[i].mode) != Some(
            FileKind::Directory,
        ) {
            proof {
                assert(ev[i as int].path == p@ && is_nondir(ev[i as int]));
            }
            return true;
        }
    }
    false
}

impl MeowDb {
    /// The remove transaction: deletes the package row and the file row
    /// of every path in its manifest. The package must be installed.
    pub fn remove_tx(&self, name: &String) -> (r: MeowDb)
        requires
            self.wf(),
            self.pkgs_map().contains_key(name@),
        ensures
            r.wf(),
            r.pkgs_map() == self.pkgs_map().remove(name@),
            r.files_map() == self.files_map().remove_keys(
                all_paths(self.pkgs_map()[name@].filelist),
            ),
            !r.pkgs_map().contains_key(name@),
            forall|p: Seq<char>|
                has_path(self.pkgs_map()[name@].filelist, p) ==> !r.files_map().contains_key(p),
    {
        let old_meta = match self.get_package(name) {
            Some(m) => m,
            None => {
                proof {
                    assert(false);
                }
                unreached()
            },
        };
        let ghost dset = all_paths(old_meta@.filelist);
        let mut new_files: Vec<(String, FileRecord)> = Vec::new();
        let nf = self.files.len();
        proof {
            assert(self.files@.take(0) =~= Seq::<(String, FileRecord)>::empty());
            assert(assoc_map(new_files@) =~= assoc_map(self.files@.take(0)).remove_keys(dset));
        }
        for i in 0..nf
            invariant
                nf == self.files@.len(),
                self.wf(),
                dset == all_paths(old_meta@.filelist),
                old_meta@ == self.pkgs_map()[name@],
                assoc_map(new_files@) == assoc_map(self.files@.take(i as int)).remove_keys(dset),
                unique_keys(new_files@),
                forall|a: int|
                    0 <= a < new_files@.len() ==> !dset.contains(
                        (#[trigger] new_files@[a]).0@,
                    ),
                forall|a: int|
                    0 <= a < new_files@.len() ==> key_in(
                        self.files@.take(i as int),
                        (#[trigger] new_files@[a]).0@,
                    ),
                forall|a: int|
                    0 <= a < new_files@.len() ==> spec_file_kind(
                        (#[trigger] new_files@[a]).1.mode,
                    ) != Some(FileKind::Directory),
            decreases nf - i,
        {
            let row = &self.files[i];
            let ghost k = row.0@;
            if path_in_filelist(&old_meta.filelist, &row.0) {
                proof {
                    assert(dset.contains(k));
                    lemma_filter_row_skip(self.files@, i as int, dset, new_files@);
                }
            } else {
                let ghost before = new_files@;
                new_files.push((row.0.clone(), row.1.clone()));
                proof {
                    assert(!dset.contains(k));
                    assert(new_files@.drop_last() =~= before);
                    lemma_filter_row_keep(self.files@, i as int, dset, before, new_files@);
                }
            }
        }
        proof {
            assert(self.files@.take(nf as int) =~= self.files@);
        }
        let mut new_pkgs: Vec<(String, MeowZipMetadata)> = Vec::new();
        let np = self.pkgs.len();
        let ghost nset = Set::new(|k: Seq<char>| k == name@);
        proof {
            assert(self.pkgs@.take(0) =~= Seq::<(String, MeowZipMetadata)>::empty());
            assert(assoc_map(new_pkgs@) =~= assoc_map(self.pkgs@.take(0)).remove_keys(nset));
        }
        for i in 0..np
            invariant
                np == self.pkgs@.len(),
                self.wf(),
                nset == Set::new(|k: Seq<char>| k == name@),
                assoc_map(new_pkgs@) == assoc_map(self.pkgs@.take(i as int)).remove_keys(nset),
                unique_keys(new_pkgs@),
                forall|a: int| 0 <= a < new_pkgs@.len() ==> (#[trigger] new_pkgs@[a]).0@ != name@,
                forall|a: int|
                    0 <= a < new_pkgs@.len() ==> key_in(
                        self.pkgs@.take(i as int),
                        (#[trigger] new_pkgs@[a]).0@,
                    ),
            decreases np - i,
        {
            let row = &self.pkgs[i];
            let ghost k = row.0@;
            if row.0 == *name {
                proof {
                    assert(nset.contains(k));
                    lemma_filter_row_skip(self.pkgs@, i as int, nset, new_pkgs@);
                }
            } else {
                let ghost before = new_pkgs@;
                new_pkgs.push((row.0.clone(), row.1.clone()));
                proof {
                    assert(!nset.contains(k));
                    assert(new_pkgs@.drop_last() =~= before);
                    lemma_filter_row_keep(self.pkgs@, i as int, nset, before, new_pkgs@);
                }
            }
        }
        proof {
            assert(self.pkgs@.take(np as int) =~= self.pkgs@);
        }
        let r = MeowDb { pkgs: new_pkgs, files: new_files };
        proof {
            assert(r.pkgs_map() =~= self.pkgs_map().remove(name@));
            assert forall|p: Seq<char>|
                has_path(self.pkgs_map()[name@].filelist, p) implies !r.files_map().contains_key(
                p,
            ) by {
                assert(dset.contains(p));
            }
        }
        r
    }

    /// The install transaction: on upgrade, drops the rows of paths the
    /// old manifest shipped and the new one does not; writes a row for
    /// every non-directory entry; and writes the package row.
    #[verifier::rlimit(100)]
    pub fn install_tx(&self, meta: &MeowZipMetadata) -> (r: MeowDb)
        requires
            self.wf(),
            unique_paths(meta@.filelist),
        ensures
            r.wf(),
            r.pkgs_map() == self.pkgs_map().insert(meta@.name, meta@),
            r.files_map() == spec_install_files(
                self.files_map(),
                spec_old_meta(self.pkgs_map(), meta@.name),
                meta@,
            ),
            forall|i: int|
                0 <= i < meta@.filelist.len() && is_nondir(#[trigger] meta@.filelist[i])
                    ==> r.files_map().contains_key(meta@.filelist[i].path)
                    && r.files_map()[meta@.filelist[i].path].package == meta@.name,
            forall|p: Seq<char>|
                (match spec_old_meta(self.pkgs_map(), meta@.name) {
                    Some(o) => has_path(o.filelist, p) && !has_path(meta@.filelist, p),
                    None => false,
                }) ==> !r.files_map().contains_key(p),
    {
        let old_pkg = self.get_package(&meta.name);
        let ghost old_v = spec_old_meta(self.pkgs_map(), meta@.name);
        proof {
            match old_pkg {
                Some(m) => {
                    assert(old_v == Some(m@));
                },
                None => {
                    assert(old_v is None);
                },
            }
        }
        let ghost mv = meta@;
        let ghost dset = Set::new(
            |p: Seq<char>|
                (match old_v {
                    Some(o) => has_path(o.filelist, p) && !has_path(mv.filelist, p),
                    None => false,
                }) || has_nondir_path(mv.filelist, p),
        );
        let mut new_files: Vec<(String, FileRecord)> = Vec::new();
        let nf = self.files.len();
        proof {
            assert(self.files@.take(0) =~= Seq::<(String, FileRecord)>::empty());
            assert(assoc_map(new_files@) =~= assoc_map(self.files@.take(0)).remove_keys(dset));
        }
        for i in 0..nf
            invariant
                nf == self.files@.len(),
                self.wf(),
                mv == meta@,
                old_v == spec_old_meta(self.pkgs_map(), mv.name),
                (old_pkg matches Some(m) ==> old_v == Some(m@)),
                old_pkg is None ==> old_v is None,
                dset == Set::new(
                    |p: Seq<char>|
                        (match old_v {
                            Some(o) => has_path(o.filelist, p) && !has_path(mv.filelist, p),
                            None => false,
                        }) || has_nondir_path(mv.filelist, p),
                ),
                assoc_map(new_files@) == assoc_map(self.files@.take(i as int)).remove_keys(dset),
                unique_keys(new_files@),
                forall|a: int|
                    0 <= a < new_files@.len() ==> !dset.contains((#[trigger] new_files@[a]).0@),
                forall|a: int|
                    0 <= a < new_files@.len() ==> key_in(
                        self.files@.take(i as int),
                        (#[trigger] new_files@[a]).0@,
                    ),
                forall|a: int|
                    0 <= a < new_files@.len() ==> spec_file_kind(
                        (#[trigger] new_files@[a]).1.mode,
                    ) != Some(FileKind::Directory),
            decreases nf - i,
        {
            let row = &self.files[i];
            let ghost k = row.0@;
            proof {
                assert(meta@.filelist =~= crate::meowzip::entries_view(meta.filelist@));
            }
            let gone = match old_pkg {
                Some(om) => {
                    proof {
                        assert(om@.filelist =~= crate::meowzip::entries_view(om.filelist@));
                    }
                    path_in_filelist(&om.filelist, &row.0) && !path_in_filelist(
                        &meta.filelist,
                        &row.0,
                    )
                },
                None => false,
            };
            if gone || nondir_path_in_filelist(&meta.filelist, &row.0) {
                proof {
                    assert(dset.contains(k));
                    lemma_filter_row_skip(self.files@, i as int, dset, new_files@);
                }
            } else {
                let ghost before = new_files@;
                new_files.push((row.0.clone(), row.1.clone()));
                proof {
                    assert(!dset.contains(k));
                    assert(new_files@.drop_last() =~= before);
                    lemma_filter_row_keep(self.files@, i as int, dset, before, new_files@);
                }
            }
        }
        proof {
            assert(self.files@.take(nf as int) =~= self.files@);
        }
        let ghost base = self.files_map().remove_keys(dset);
        let ghost flen1 = new_files@.len() as int;
        let ne = meta.filelist.len();
        proof {
            assert(mv.filelist.take(0) =~= Seq::<EntryV>::empty());
        }
        for j in 0..ne
            invariant
                ne == meta.filelist@.len(),
                mv == meta@,
                mv.filelist.len() == ne,
                unique_paths(mv.filelist),
                dset == Set::new(
                    |p: Seq<char>|
                        (match old_v {
                            Some(o) => has_path(o.filelist, p) && !has_path(mv.filelist, p),
                            None => false,
                        }) || has_nondir_path(mv.filelist, p),
                ),
                0 <= flen1 <= new_files@.len(),
                assoc_map(new_files@) == insert_all(base, mv.name, mv.filelist.take(j as int)),
                unique_keys(new_files@),
                forall|a: int| 0 <= a < flen1 ==> !dset.contains((#[trigger] new_files@[a]).0@),
                forall|a: int|
                    flen1 <= a < new_files@.len() ==> exists|t: int|
                        0 <= t < j && (#[trigger] new_files@[a]).0@ == mv.filelist[t].path
                            && is_nondir(mv.filelist[t]),
                forall|a: int|
                    0 <= a < flen1 ==> (#[trigger] new_files@[a]) == new_files@[a],
                forall|a: int|
                    0 <= a < new_files@.len() ==> spec_file_kind(
                        (#[trigger] new_files@[a]).1.mode,
                    ) != Some(FileKind::Directory),
            decreases ne - j,
        {
            let e = &meta.filelist[j];
            let ghost ej = mv.filelist[j as int];
            proof {
                assert(ej == e@);
                assert(mv.filelist.take(j as int).push(ej) =~= mv.filelist.take(j + 1));
                assert(mv.filelist.take(j + 1).drop_last() =~= mv.filelist.take(j as int));
            }
            if crate::errors::file_kind_of_mode(e.mode) != Some(FileKind::Directory) {
                let rec = FileRecord::from_entry(e).with_package(meta.name.clone());
                let ghost before = new_files@;
                new_files.push((e.filepath.clone(), rec));
                proof {
                    assert(is_nondir(ej));
                    assert(new_files@.drop_last() =~= before);
                    assert(assoc_map(new_files@) == assoc_map(before).insert(
                        ej.path,
                        spec_record_of(ej, mv.name),
                    ));
                    assert(insert_all(base, mv.name, mv.filelist.take(j + 1)) == insert_all(
                        base,
                        mv.name,
                        mv.filelist.take(j as int),
                    ).insert(ej.path, spec_record_of(ej, mv.name)));
                    assert forall|a: int| 0 <= a < before.len() implies (#[trigger] before[a]).0@
                        != ej.path by {
                        if before[a].0@ == ej.path {
                            if a < flen1 {
                                assert(has_nondir_path(mv.filelist, ej.path)) by {
                                    assert(mv.filelist[j as int].path == ej.path && is_nondir(
                                        mv.filelist[j as int],
                                    ));
                                }
                                assert(dset.contains(ej.path));
                            } else {
                                let t = choose|t: int|
                                    0 <= t < j && (#[trigger] before[a]).0@ == mv.filelist[t].path
                                        && is_nondir(mv.filelist[t]);
                                assert(mv.filelist[t].path == mv.filelist[j as int].path);
                            }
                        }
                    }
                    assert forall|a: int|
                        flen1 <= a < new_files@.len() implies exists|t: int|
                            0 <= t < j + 1 && (#[trigger] new_files@[a]).0@
                                == mv.filelist[t].path && is_nondir(mv.filelist[t]) by {
                        if a < new_files@.len() - 1 {
                            assert(new_files@[a] == before[a]);
                            let t = choose|t: int|
                                0 <= t < j && (#[trigger] before[a]).0@ == mv.filelist[t].path
                                    && is_nondir(mv.filelist[t]);
                            assert(new_files@[a].0@ == mv.filelist[t].path && is_nondir(
                                mv.filelist[t],
                            ));
                        } else {
                            assert(new_files@[a].0@ == mv.filelist[j as int].path && is_nondir(
                                mv.filelist[j as int],
                            ));
                        }
                    }
                }
            } else {
                proof {
                    assert(!is_nondir(ej));
                    assert(insert_all(base, mv.name, mv.filelist.take(j + 1)) == insert_all(
                        base,
                        mv.name,
                        mv.filelist.take(j as int),
                    ));
                }
            }
        }
        proof {
            assert(mv.filelist.take(ne as int) =~= mv.filelist);
        }
        let mut new_pkgs: Vec<(String, MeowZipMetadata)> = Vec::new();
        let np = self.pkgs.len();
        let ghost nset = Set::new(|k: Seq<char>| k == mv.name);
        proof {
            assert(self.pkgs@.take(0) =~= Seq::<(String, MeowZipMetadata)>::empty());
            assert(assoc_map(new_pkgs@) =~= assoc_map(self.pkgs@.take(0)).remove_keys(nset));
        }
        for i in 0..np
            invariant
                np == self.pkgs@.len(),
                self.wf(),
                mv == meta@,
                nset == Set::new(|k: Seq<char>| k == mv.name),
                assoc_map(new_pkgs@) == assoc_map(self.pkgs@.take(i as int)).remove_keys(nset),
                unique_keys(new_pkgs@),
                forall|a: int| 0 <= a < new_pkgs@.len() ==> (#[trigger] new_pkgs@[a]).0@ != mv.name,
                forall|a: int|
                    0 <= a < new_pkgs@.len() ==> key_in(
                        self.pkgs@.take(i as int),
                        (#[trigger] new_pkgs@[a]).0@,
                    ),
            decreases np - i,
        {
            let row = &self.pkgs[i];
            let ghost k = row.0@;
            if row.0 == meta.name {
                proof {
                    assert(nset.contains(k));
                    lemma_filter_row_skip(self.pkgs@, i as int, nset, new_pkgs@);
                }
            } else {
                let ghost before = new_pkgs@;
                new_pkgs.push((row.0.clone(), row.1.clone()));
                proof {
                    assert(!nset.contains(k));
                    assert(new_pkgs@.drop_last() =~= before);
                    lemma_filter_row_keep(self.pkgs@, i as int, nset, before, new_pkgs@);
                }
            }
        }
        proof {
            assert(self.pkgs@.take(np as int) =~= self.pkgs@);
        }
        let ghost before_push = new_pkgs@;
        new_pkgs.push((meta.name.clone(), meta.clone()));
        proof {
            assert(new_pkgs@.drop_last() =~= before_push);
            assert(assoc_map(new_pkgs@) == assoc_map(before_push).insert(mv.name, mv));
            assert(assoc_map(new_pkgs@) =~= self.pkgs_map().insert(mv.name, mv));
        }
        let r = MeowDb { pkgs: new_pkgs, files: new_files };
        proof {
            let fexec = assoc_map(new_files@);
            let fspec = spec_install_files(self.files_map(), old_v, mv);
            let base2 = match old_v {
                Some(o) => self.files_map().remove_keys(gone_paths(o, mv)),
                None => self.files_map(),
            };
            assert forall|p: Seq<char>| #[trigger] fexec.contains_key(p) implies
                fspec.contains_key(p) && fexec[p] == fspec[p] by {
                lemma_insert_all_char(base, mv.name, mv.filelist, p);
                lemma_insert_all_char(base2, mv.name, mv.filelist, p);
                if !has_nondir_path(mv.filelist, p) {
                    assert(!dset.contains(p) ==> (match old_v {
                        Some(o) => !(has_path(o.filelist, p) && !has_path(mv.filelist, p)),
                        None => true,
                    }));
                }
            }
            assert forall|p: Seq<char>| #[trigger] fspec.contains_key(p) implies
                fexec.contains_key(p) by {
                lemma_insert_all_char(base, mv.name, mv.filelist, p);
                lemma_insert_all_char(base2, mv.name, mv.filelist, p);
            }
            assert(fexec.dom() =~= fspec.dom());
            assert(fexec =~= fspec);
            assert forall|i: int|
                0 <= i < mv.filelist.len() && is_nondir(#[trigger] mv.filelist[i]) implies
                r.files_map().contains_key(mv.filelist[i].path) && r.files_map()[mv.filelist[
                i].path].package == mv.name by {
                let p = mv.filelist[i].path;
                assert(has_nondir_path(mv.filelist, p)) by {
                    assert(mv.filelist[i].path == p && is_nondir(mv.filelist[i]));
                }
                lemma_insert_all_char(base2, mv.name, mv.filelist, p);
                lemma_last_record_package(mv.filelist, p, mv.name);
            }
            assert forall|p: Seq<char>|
                (match old_v {
                    Some(o) => has_path(o.filelist, p) && !has_path(mv.filelist, p),
                    None => false,
                }) implies !r.files_map().contains_key(p) by {
                lemma_insert_all_char(base2, mv.name, mv.filelist, p);
                if has_nondir_path(mv.filelist, p) {
                    let t = choose|t: int|
                        0 <= t < mv.filelist.len() && (#[trigger] mv.filelist[t]).path == p
                            && is_nondir(mv.filelist[t]);
                    assert(has_path(mv.filelist, p)) by {
                        assert(mv.filelist[t].path == p);
                    }
                }
            }
        }
        r
    }
}

/// The cross-table invariant of the index: every file row names an
/// installed package, and that package ships the row's path.
pub open spec fn ref_integrity(
    pkgs: Map<Seq<char>, MetaV>,
    files: Map<Seq<char>, RecordV>,
) -> bool {
    forall|p: Seq<char>|
        #[trigger] files.contains_key(p) ==> pkgs.contains_key(files[p].package) && has_path(
            pkgs[files[p].package].filelist,
            p,
        )
}

/// Law: the install transaction preserves the cross-table invariant.
pub proof fn lemma_install_preserves_integrity(
    pkgs: Map<Seq<char>, MetaV>,
    files: Map<Seq<char>, RecordV>,
    m: MetaV,
)
    requires
        ref_integrity(pkgs, files),
    ensures
        ref_integrity(
            pkgs.insert(m.name, m),
            spec_install_files(files, spec_old_meta(pkgs, m.name), m),
        ),
{
    let old = spec_old_meta(pkgs, m.name);
    let base = match old {
        Some(o) => files.remove_keys(gone_paths(o, m)),
        None => files,
    };
    let files2 = spec_install_files(files, old, m);
    let pkgs2 = pkgs.insert(m.name, m);
    assert forall|p: Seq<char>| #[trigger] files2.contains_key(p) implies pkgs2.contains_key(
        files2[p].package,
    ) && has_path(pkgs2[files2[p].package].filelist, p) by {
        lemma_insert_all_char(base, m.name, m.filelist, p);
        if has_nondir_path(m.filelist, p) {
            lemma_last_record_package(m.filelist, p, m.name);
            let i = choose|i: int|
                0 <= i < m.filelist.len() && (#[trigger] m.filelist[i]).path == p && is_nondir(
                    m.filelist[i],
                );
            assert(has_path(m.filelist, p)) by {
                assert(m.filelist[i].path == p);
            }
        } else {
            assert(files2[p] == files[p]);
            let q = files[p].package;
            assert(pkgs.contains_key(q) && has_path(pkgs[q].filelist, p));
            if q == m.name {
                assert(old == Some(pkgs[m.name]));
                if let Some(o) = old {
                    assert(has_path(o.filelist, p));
                    assert(!gone_paths(o, m).contains(p));
                    assert(has_path(m.filelist, p));
                }
            }
        }
    }
}

/// Law: the remove transaction preserves the cross-table invariant.
pub proof fn lemma_remove_preserves_integrity(
    pkgs: Map<Seq<char>, MetaV>,
    files: Map<Seq<char>, RecordV>,
    name: Seq<char>,
)
    requires
        ref_integrity(pkgs, files),
        pkgs.contains_key(name),
    ensures
        ref_integrity(
            pkgs.remove(name),
            files.remove_keys(all_paths(pkgs[name].filelist)),
        ),
{
    let files2 = files.remove_keys(all_paths(pkgs[name].filelist));
    let pkgs2 = pkgs.remove(name);
    assert forall|p: Seq<char>| #[trigger] files2.contains_key(p) implies pkgs2.contains_key(
        files2[p].package,
    ) && has_path(pkgs2[files2[p].package].filelist, p) by {
        assert(files.contains_key(p));
        assert(!all_paths(pkgs[name].filelist).contains(p));
        let q = files[p].package;
        if q == name {
            assert(has_path(pkgs[name].filelist, p));
            assert(all_paths(pkgs[name].filelist).contains(p));
        }
        assert(q != name);
    }
}

/// The paths an upgrade must delete, children before parents: each path
/// of the old manifest that the new one no longer ships, in reverse
/// manifest order.
pub open spec fn spec_upgrade_removals(o: Seq<EntryV>, n: Seq<EntryV>) -> Seq<Seq<char>>
    decreases o.len(),
{
    if o.len() == 0 {
        Seq::empty()
    } else {
        let head: Seq<Seq<char>> = if !has_path(n, o.last().path) {
            seq![o.last().path]
        } else {
            Seq::empty()
        };
        head + spec_upgrade_removals(o.drop_last(), n)
    }
}

/// The filesystem side of an upgrade: the abandoned paths, in reverse
/// manifest order so children precede parents.
pub fn upgrade_removals(
    old_meta: &crate::meowzip::MeowZipMetadata,
    incoming: &crate::meowzip::MeowZipMetadata,
) -> (r: Vec<String>)
    ensures
        r.deep_view() == spec_upgrade_removals(
            crate::meowzip::entries_view(old_meta.filelist@),
            crate::meowzip::entries_view(incoming.filelist@),
        ),
{
    let ghost ov = crate::meowzip::entries_view(old_meta.filelist@);
    let ghost nv = crate::meowzip::entries_view(incoming.filelist@);
    let mut out: Vec<String> = Vec::new();
    let len = old_meta.filelist.len();
    proof {
        assert(ov.take(len as int) =~= ov);
        assert(out.deep_view() =~= Seq::<Seq<char>>::empty());
        assert(Seq::<Seq<char>>::empty() + spec_upgrade_removals(ov.take(len as int), nv)
            =~= spec_upgrade_removals(ov.take(len as int), nv));
    }
    for i in 0..len
        invariant
            len == old_meta.filelist@.len(),
            ov == crate::meowzip::entries_view(old_meta.filelist@),
            nv == crate::meowzip::entries_view(incoming.filelist@),
            spec_upgrade_removals(ov, nv) == out.deep_view() + spec_upgrade_removals(
                ov.take((len - i) as int),
                nv,
            ),
        decreases len - i,
    {
        let j = len - 1 - i;
        let ghost pre = ov.take((len - i) as int);
        proof {
            assert(pre.last() == ov[j as int]);
            assert(pre.drop_last() =~= ov.take((len - i - 1) as int));
            assert(incoming@.filelist =~= nv);
        }
        let ghost dv0 = out.deep_view();
        if !path_in_filelist(&incoming.filelist, &old_meta.filelist[j].filepath) {
            out.push(old_meta.filelist[j].filepath.clone());
            proof {
                assert(out.deep_view() =~~= dv0.push(ov[j as int].path));
                assert(dv0 + (seq![ov[j as int].path] + spec_upgrade_removals(
                    ov.take((len - i - 1) as int),
                    nv,
                )) =~= dv0.push(ov[j as int].path) + spec_upgrade_removals(
                    ov.take((len - i - 1) as int),
                    nv,
                ));
            }
        } else {
            proof {
                assert(Seq::<Seq<char>>::empty() + spec_upgrade_removals(
                    ov.take((len - i - 1) as int),
                    nv,
                ) =~= spec_upgrade_removals(ov.take((len - i - 1) as int), nv));
            }
        }
    }
    proof {
        assert(ov.take(0) =~= Seq::<EntryV>::empty());
        assert(out.deep_view() + Seq::<Seq<char>>::empty() =~= out.deep_view());
    }
    out
}

/// All paths of a manifest, in reverse manifest order, as an uninstall
/// walks them.
pub fn removal_paths(meta: &crate::meowzip::MeowZipMetadata) -> (r: Vec<String>)
    ensures
        r@.len() == meta.filelist@.len(),
        forall|a: int|
            0 <= a < r@.len() ==> (#[trigger] r@[a])@ == meta@.filelist[meta@.filelist.len() - 1
                - a].path,
{
    let mut out: Vec<String> = Vec::new();
    let len = meta.filelist.len();
    for i in 0..len
        invariant
            len == meta.filelist@.len(),
            out@.len() == i,
            forall|a: int|
                0 <= a < i ==> (#[trigger] out@[a])@ == meta@.filelist[len - 1 - a].path,
        decreases len - i,
    {
        out.push(meta.filelist[len - 1 - i].filepath.clone());
    }
    out
}

} // verus!
