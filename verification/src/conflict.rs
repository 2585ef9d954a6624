//! The pre-apply checks of an install: every dependency present, the
//! package not already installed, and no path conflict between the
//! incoming manifest, the files table, and what is on disk.

use vstd::prelude::*;

use crate::db::{assoc_map, MeowDb};
use crate::errors::{spec_file_kind, FileKind, MeowError};
use crate::meowzip::{EntryV, MeowZipEntry, MeowZipMetadata};
use crate::records::{FileRecord, RecordV};

verus! {

/// What sits on disk at a rooted path, with the link itself inspected
/// rather than followed.
#[derive(Clone, Copy, Debug, PartialEq, Eq, Structural)]
pub enum DiskKind {
    Directory,
    Regular,
    Symlink,
    /// Any other file type: a device, socket, or pipe.
    Other,
}

/// Everything the conflict check reads about one path: the files-table
/// row, and the file type on disk, if either exists.
pub struct PathContext {
    pub old_record: Option<FileRecord>,
    pub on_disk: Option<DiskKind>,
}

/// Whether an entry's declared kind and an on-disk kind agree.
pub open spec fn kind_matches(k: FileKind, d: DiskKind) -> bool {
    match (k, d) {
        (FileKind::Directory, DiskKind::Directory) => true,
        (FileKind::Regular, DiskKind::Regular) => true,
        (FileKind::Symlink, DiskKind::Symlink) => true,
        _ => false,
    }
}

/// The outcome of the conflict check for one entry.
pub enum ConflictCheck {
    /// No conflict: the entry may be applied.
    Accept,
    /// The entry's mode bits name no supported file type.
    BadMode,
    /// The path is owned by another package; carries the owner's name.
    Owned(Seq<char>),
    /// The on-disk file type does not match; carries the expected kind.
    Mismatch(FileKind),
}

/// The conflict rule for one entry, over the incoming package name, the
/// entry, its files-table row, and what is on disk:
/// - an entry whose mode names no file type is refused;
/// - a regular or symlink entry whose row belongs to another package is
///   refused as owned;
/// - with nothing on disk, the entry is accepted;
/// - with a row whose recorded file type matches the on-disk type, the
///   path is upgradable and accepted;
/// - otherwise the on-disk type must match the incoming type.
pub open spec fn spec_check_conflict(
    name: Seq<char>,
    e: EntryV,
    rec: Option<RecordV>,
    disk: Option<DiskKind>,
) -> ConflictCheck {
    match spec_file_kind(e.mode) {
        None => ConflictCheck::BadMode,
        Some(kind) => {
            let owned = rec matches Some(r) && r.package != name;
            if (kind == FileKind::Regular || kind == FileKind::Symlink) && owned {
                ConflictCheck::Owned(rec.unwrap().package)
            } else {
                match disk {
                    None => ConflictCheck::Accept,
                    Some(d) => {
                        let upgradable = rec matches Some(r)
                            && (spec_file_kind(r.mode) matches Some(rk) && kind_matches(rk, d));
                        if upgradable {
                            ConflictCheck::Accept
                        } else if kind_matches(kind, d) {
                            ConflictCheck::Accept
                        } else {
                            ConflictCheck::Mismatch(kind)
                        }
                    },
                }
            }
        },
    }
}

fn kind_matches_exec(k: FileKind, d: DiskKind) -> (r: bool)
    ensures
        r == kind_matches(k, d),
{
    match (k, d) {
        (FileKind::Directory, DiskKind::Directory) => true,
        (FileKind::Regular, DiskKind::Regular) => true,
        (FileKind::Symlink, DiskKind::Symlink) => true,
        _ => false,
    }
}

/// Checks one entry against its path context, surfacing the exact
/// conflict of [`spec_check_conflict`].
pub fn check_conflicts(pkg_name: &String, entry: &MeowZipEntry, ctx: &PathContext) -> (r: Result<
    (),
    MeowError,
>)
    ensures
        ({
            let c = spec_check_conflict(pkg_name@, entry@, view_opt_rec(ctx.old_record), ctx.on_disk);
            match c {
                ConflictCheck::Accept => r is Ok,
                ConflictCheck::BadMode => (r matches Err(e) && e matches
                    MeowError::InvalidEntryMode { path } && path@ == entry@.path),
                ConflictCheck::Owned(owner) => (r matches Err(e) && e matches
                    MeowError::ConflictOwned { path, owner: o } && path@ == entry@.path && o@
                    == owner),
                ConflictCheck::Mismatch(k) => (r matches Err(e) && e matches
                    MeowError::ConflictKind { path, expected } && path@ == entry@.path && expected
                    == k),
            }
        }),
{
    let kind = match crate::errors::file_kind_of_mode(entry.mode) {
        Some(k) => k,
        None => {
            return Err(MeowError::InvalidEntryMode { path: entry.filepath.clone() });
        },
    };
    if kind == FileKind::Regular || kind == FileKind::Symlink {
        if let Some(rec) = &ctx.old_record {
            if !(rec.package == *pkg_name) {
                return Err(
                    MeowError::ConflictOwned {
                        path: entry.filepath.clone(),
                        owner: rec.package.clone(),
                    },
                );
            }
        }
    }
    let d = match ctx.on_disk {
        None => {
            return Ok(());
        },
        Some(d) => d,
    };
    if let Some(rec) = &ctx.old_record {
        if let Some(rk) = crate::errors::file_kind_of_mode(rec.mode) {
            if kind_matches_exec(rk, d) {
                return Ok(());
            }
        }
    }
    if kind_matches_exec(kind, d) {
        Ok(())
    } else {
        Err(MeowError::ConflictKind { path: entry.filepath.clone(), expected: kind })
    }
}

/// The view of an optional files-table row.
pub open spec fn view_opt_rec(r: Option<FileRecord>) -> Option<RecordV> {
    match r {
        Some(rec) => Some(rec@),
        None => None,
    }
}

// ---------------------------------------------------------------------------
// The whole pre-apply gate
// ---------------------------------------------------------------------------

/// The dependencies of the list that the packages table lacks, in order.
pub open spec fn spec_missing_deps(pkgs: Map<Seq<char>, crate::meowzip::MetaV>, deps: Seq<
    Seq<char>,
>) -> Seq<Seq<char>>
    decreases deps.len(),
{
    if deps.len() == 0 {
        Seq::empty()
    } else {
        let rest = spec_missing_deps(pkgs, deps.drop_last());
        if !pkgs.contains_key(deps.last()) {
            rest.push(deps.last())
        } else {
            rest
        }
    }
}

/// Lists the dependencies of the package that are not installed.
pub fn missing_depends(db: &MeowDb, meta: &MeowZipMetadata) -> (r: Vec<String>)
    requires
        db.wf(),
    ensures
        r.deep_view() == spec_missing_deps(db.pkgs_map(), meta@.depends),
{
    let mut out: Vec<String> = Vec::new();
    let n = meta.depends.len();
    proof {
        assert(meta@.depends.take(0) =~= Seq::<Seq<char>>::empty());
        assert(out.deep_view() =~= spec_missing_deps(db.pkgs_map(), meta@.depends.take(0)));
    }
    for i in 0..n
        invariant
            n == meta.depends@.len(),
            db.wf(),
            meta@.depends.len() == n,
            out.deep_view() == spec_missing_deps(db.pkgs_map(), meta@.depends.take(i as int)),
        decreases n - i,
    {
        let ghost pref = meta@.depends.take(i as int);
        proof {
            assert(pref.push(meta@.depends[i as int]) =~= meta@.depends.take(i + 1));
            assert(meta@.depends.take(i + 1).drop_last() =~= pref);
        }
        let ghost dv_before = out.deep_view();
        if db.get_package(&meta.depends[i]).is_none() {
            out.push(meta.depends[i].clone());
            proof {
                assert(out.deep_view() =~~= dv_before.push(meta@.depends[i as int]));
            }
        }
    }
    proof {
        assert(meta@.depends.take(n as int) =~= meta@.depends);
    }
    out
}

/// The conflict outcome for entry `i` of the manifest under its context.
pub open spec fn ctx_check(m: crate::meowzip::MetaV, ctxs: Seq<PathContext>, i: int) -> ConflictCheck {
    spec_check_conflict(
        m.name,
        m.filelist[i],
        view_opt_rec(ctxs[i].old_record),
        ctxs[i].on_disk,
    )
}

/// The pre-apply gate of an install, in order: missing dependencies
/// (unless `breakdeps`), an already-installed package (unless
/// `overwrite`), a path the manifest ships twice, then the first
/// conflicting entry. On success the manifest has one entry per path,
/// as the commit requires.
pub fn check_install(
    db: &MeowDb,
    meta: &MeowZipMetadata,
    ctxs: &Vec<PathContext>,
    overwrite: bool,
    breakdeps: bool,
) -> (r: Result<(), MeowError>)
    requires
        db.wf(),
        ctxs@.len() == meta.filelist@.len(),
    ensures
        r is Ok <==> ((breakdeps || spec_missing_deps(db.pkgs_map(), meta@.depends).len() == 0) && (
        overwrite || !db.pkgs_map().contains_key(meta@.name)) && crate::db::unique_paths(
            meta@.filelist,
        ) && (forall|i: int|
            0 <= i < meta@.filelist.len() ==> ctx_check(meta@, ctxs@, i) is Accept)),
        r is Ok ==> crate::db::unique_paths(meta@.filelist),
        (r matches Err(e) && e is DuplicatePath <==> ((breakdeps || spec_missing_deps(
            db.pkgs_map(),
            meta@.depends,
        ).len() == 0) && (overwrite || !db.pkgs_map().contains_key(meta@.name))
            && !crate::db::unique_paths(meta@.filelist))),
        (r matches Err(e) ==> (e matches MeowError::DuplicatePath { path } ==> exists|i: int,
        j: int|
            0 <= i < j < meta@.filelist.len() && (#[trigger] meta@.filelist[i]).path == (
            #[trigger] meta@.filelist[j]).path && meta@.filelist[i].path == path@)),
        (r matches Err(e) && e is MissingDependencies <==> !breakdeps && spec_missing_deps(
            db.pkgs_map(),
            meta@.depends,
        ).len() > 0),
        (r matches Err(e) ==> (e matches MeowError::MissingDependencies { missing }
            ==> missing.deep_view() == spec_missing_deps(db.pkgs_map(), meta@.depends))),
        (r matches Err(e) && e is AlreadyInstalled <==> ((breakdeps || spec_missing_deps(
            db.pkgs_map(),
            meta@.depends,
        ).len() == 0) && !overwrite && db.pkgs_map().contains_key(meta@.name))),
        (r matches Err(e) ==> (e matches MeowError::AlreadyInstalled { name } ==> name@
            == meta@.name)),
{
    let missing = missing_depends(db, meta);
    if missing.len() > 0 && !breakdeps {
        proof {
            assert(missing.deep_view().len() == missing@.len());
        }
        return Err(MeowError::MissingDependencies { missing });
    }
    proof {
        assert(missing.deep_view().len() == missing@.len());
    }
    if !overwrite {
        if db.get_package(&meta.name).is_some() {
            return Err(MeowError::AlreadyInstalled { name: meta.name.clone() });
        }
    }
    let n = meta.filelist.len();
    for i in 0..n
        invariant
            n == meta.filelist@.len(),
            breakdeps || spec_missing_deps(db.pkgs_map(), meta@.depends).len() == 0,
            overwrite || !db.pkgs_map().contains_key(meta@.name),
            forall|a: int, b: int|
                0 <= a < b < i ==> (#[trigger] meta@.filelist[a]).path != (
                #[trigger] meta@.filelist[b]).path,
        decreases n - i,
    {
        for j in 0..i
            invariant
                i < n == meta.filelist@.len(),
                breakdeps || spec_missing_deps(db.pkgs_map(), meta@.depends).len() == 0,
                overwrite || !db.pkgs_map().contains_key(meta@.name),
                forall|a: int, b: int|
                    0 <= a < b < i ==> (#[trigger] meta@.filelist[a]).path != (
                    #[trigger] meta@.filelist[b]).path,
                forall|a: int|
                    0 <= a < j ==> (#[trigger] meta@.filelist[a]).path != meta@.filelist[
                    i as int].path,
            decreases i - j,
        {
            if meta.filelist[j].filepath == meta.filelist[i].filepath {
                proof {
                    assert(meta@.filelist[j as int].path == meta@.filelist[i as int].path);
                    assert(!crate::db::unique_paths(meta@.filelist));
                }
                return Err(MeowError::DuplicatePath { path: meta.filelist[i].filepath.clone() });
            }
        }
    }
    proof {
        assert(crate::db::unique_paths(meta@.filelist));
    }
    for i in 0..n
        invariant
            n == meta.filelist@.len(),
            ctxs@.len() == n,
            db.wf(),
            breakdeps || spec_missing_deps(db.pkgs_map(), meta@.depends).len() == 0,
            overwrite || !db.pkgs_map().contains_key(meta@.name),
            crate::db::unique_paths(meta@.filelist),
            forall|k: int| 0 <= k < i ==> ctx_check(meta@, ctxs@, k) is Accept,
        decreases n - i,
    {
        proof {
            assert(meta@.filelist[i as int] == meta.filelist@[i as int]@);
        }
        match check_conflicts(&meta.name, &meta.filelist[i], &ctxs[i]) {
            Ok(_) => {},
            Err(e) => {
                proof {
                    assert(ctx_check(meta@, ctxs@, i as int) == spec_check_conflict(
                        meta@.name,
                        meta.filelist@[i as int]@,
                        view_opt_rec(ctxs@[i as int].old_record),
                        ctxs@[i as int].on_disk,
                    ));
                    assert(!(ctx_check(meta@, ctxs@, i as int) is Accept));
                    assert(!(e is MissingDependencies));
                    assert(!(e is AlreadyInstalled));
                    assert(!(e is DuplicatePath));
                }
                return Err(e);
            },
        }
    }
    Ok(())
}

// ---------------------------------------------------------------------------
// The remove gate
// ---------------------------------------------------------------------------

/// Whether a dependency list names this package.
pub open spec fn deps_contain(deps: Seq<Seq<char>>, name: Seq<char>) -> bool {
    exists|i: int| 0 <= i < deps.len() && deps[i] == name
}

/// Whether any installed package depends on this one.
pub open spec fn spec_has_dependent(pkgs: Map<Seq<char>, crate::meowzip::MetaV>, name: Seq<
    char,
>) -> bool {
    exists|k: Seq<char>| #[trigger] pkgs.contains_key(k) && deps_contain(pkgs[k].depends, name)
}

fn depends_on(deps: &Vec<String>, name: &String) -> (r: bool)
    ensures
        r == deps_contain(deps.deep_view(), name@),
{
    let n = deps.len();
    for i in 0..n
        invariant
            n == deps@.len(),
            forall|k: int| 0 <= k < i ==> deps.deep_view()[k] != name@,
        decreases n - i,
    {
        if deps[i] == *name {
            proof {
                assert(deps.deep_view()[i as int] == name@);
            }
            return true;
        }
    }
    false
}

/// The names of installed packages whose dependency lists name this
/// one: all of them, each once, in table order.
pub fn dependents_of(db: &MeowDb, name: &String) -> (r: Vec<String>)
    requires
        db.wf(),
    ensures
        forall|a: int|
            0 <= a < r@.len() ==> db.pkgs_map().contains_key((#[trigger] r@[a])@) && deps_contain(
                db.pkgs_map()[r@[a]@].depends,
                name@,
            ),
        forall|k: Seq<char>|
            #[trigger] db.pkgs_map().contains_key(k) && deps_contain(
                db.pkgs_map()[k].depends,
                name@,
            ) ==> exists|a: int| 0 <= a < r@.len() && (#[trigger] r@[a])@ == k,
        r@.len() == 0 <==> !spec_has_dependent(db.pkgs_map(), name@),
{
    let rows = db.packages();
    let mut out: Vec<String> = Vec::new();
    let n = rows.len();
    for i in 0..n
        invariant
            n == rows@.len(),
            db.wf(),
            assoc_map(rows@) == db.pkgs_map(),
            forall|b: int|
                0 <= b < rows@.len() ==> db.pkgs_map().contains_key((#[trigger] rows@[b]).0@)
                    && db.pkgs_map()[rows@[b].0@] == rows@[b].1@,
            forall|k: Seq<char>|
                db.pkgs_map().contains_key(k) ==> exists|b: int|
                    0 <= b < rows@.len() && (#[trigger] rows@[b]).0@ == k,
            forall|a: int|
                0 <= a < out@.len() ==> db.pkgs_map().contains_key((#[trigger] out@[a])@)
                    && deps_contain(db.pkgs_map()[out@[a]@].depends, name@),
            forall|b: int|
                0 <= b < i && deps_contain((#[trigger] rows@[b]).1@.depends, name@)
                    ==> exists|a: int| 0 <= a < out@.len() && (#[trigger] out@[a])@ == rows@[b].0@,
        decreases n - i,
    {
        let row = &rows[i];
        proof {
            assert(row.1@.depends =~~= row.1.depends.deep_view());
        }
        if depends_on(&row.1.depends, name) {
            let ghost before = out@;
            out.push(row.0.clone());
            proof {
                assert(out@[out@.len() - 1]@ == rows@[i as int].0@);
                assert forall|b: int|
                    0 <= b < i + 1 && deps_contain((#[trigger] rows@[b]).1@.depends, name@) implies
                    exists|a: int| 0 <= a < out@.len() && (#[trigger] out@[a])@ == rows@[b].0@ by {
                    if b < i {
                        let a = choose|a: int|
                            0 <= a < before.len() && (#[trigger] before[a])@ == rows@[b].0@;
                        assert(out@[a]@ == rows@[b].0@);
                    } else {
                        assert(out@[out@.len() - 1]@ == rows@[b].0@);
                    }
                }
            }
        }
    }
    proof {
        if out@.len() > 0 {
            assert(spec_has_dependent(db.pkgs_map(), name@)) by {
                assert(db.pkgs_map().contains_key(out@[0]@) && deps_contain(
                    db.pkgs_map()[out@[0]@].depends,
                    name@,
                ));
            }
        }
        if spec_has_dependent(db.pkgs_map(), name@) {
            let k = choose|k: Seq<char>|
                #[trigger] db.pkgs_map().contains_key(k) && deps_contain(
                    db.pkgs_map()[k].depends,
                    name@,
                );
            let b = choose|b: int| 0 <= b < rows@.len() && (#[trigger] rows@[b]).0@ == k;
            assert(deps_contain(rows@[b].1@.depends, name@));
            assert(out@.len() > 0);
        }
    }
    out
}

/// The remove gate: the package must be installed, and nothing may
/// depend on it unless dependents are knowingly broken.
pub fn check_remove(db: &MeowDb, name: &String, breakdeps: bool) -> (r: Result<(), MeowError>)
    requires
        db.wf(),
    ensures
        r is Ok <==> (db.pkgs_map().contains_key(name@) && (breakdeps || !spec_has_dependent(
            db.pkgs_map(),
            name@,
        ))),
        (r matches Err(e) && e is NotInstalled <==> !db.pkgs_map().contains_key(name@)),
        (r matches Err(e) && e is HasDependents <==> (db.pkgs_map().contains_key(name@)
            && !breakdeps && spec_has_dependent(db.pkgs_map(), name@))),
        (r matches Err(e) ==> (e matches MeowError::HasDependents { name: n, dependents }
            ==> n@ == name@ && (forall|a: int|
            0 <= a < dependents@.len() ==> db.pkgs_map().contains_key(
                (#[trigger] dependents@[a])@,
            ) && deps_contain(db.pkgs_map()[dependents@[a]@].depends, name@)))),
{
    if db.get_package(name).is_none() {
        return Err(MeowError::NotInstalled { name: name.clone() });
    }
    let dependents = dependents_of(db, name);
    if dependents.len() > 0 && !breakdeps {
        return Err(MeowError::HasDependents { name: name.clone(), dependents });
    }
    Ok(())
}

} // verus!
