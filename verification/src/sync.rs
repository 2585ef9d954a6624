//! The sync planner: the package index, the dependency resolver, the
//! upgrade delta, and the orphan set.

use vstd::prelude::*;

use crate::db::{assoc_map, lemma_assoc_map_dom, lemma_assoc_map_get, unique_keys};
use crate::errors::MeowError;
use crate::strutil::{dec_digits, push_char, u64_to_dec};

verus! {

/// The installer's configuration: the index location, the trusted
/// signing keys in base64, and the packages this machine wants.
pub struct Config {
    pub index: String,
    pub keys: Vec<String>,
    pub packages: Vec<String>,
}

/// One index entry: a package's identity, its dependencies, and where
/// its source lives.
pub struct Manifest {
    pub name: String,
    pub version: String,
    pub release: u64,
    pub dependencies: Vec<String>,
    pub source: String,
}

/// The mathematical value of an index entry.
#[verifier::ext_equal]
pub struct ManifestV {
    pub name: Seq<char>,
    pub version: Seq<char>,
    pub release: u64,
    pub dependencies: Seq<Seq<char>>,
    pub source: Seq<char>,
}

impl View for Manifest {
    type V = ManifestV;

    open spec fn view(&self) -> ManifestV {
        ManifestV {
            name: self.name@,
            version: self.version@,
            release: self.release,
            dependencies: self.dependencies.deep_view(),
            source: self.source@,
        }
    }
}

impl Clone for Manifest {
    fn clone(&self) -> (r: Self)
        ensures
            r@ == self@,
    {
        let mut deps: Vec<String> = Vec::new();
        let n = self.dependencies.len();
        for i in 0..n
            invariant
                n == self.dependencies@.len(),
                deps@.len() == i,
                forall|k: int| 0 <= k < i ==> (#[trigger] deps@[k])@ == self.dependencies@[k]@,
            decreases n - i,
        {
            deps.push(self.dependencies[i].clone());
        }
        let r = Manifest {
            name: self.name.clone(),
            version: self.version.clone(),
            release: self.release,
            dependencies: deps,
            source: self.source.clone(),
        };
        proof {
            assert(r@.dependencies =~~= self@.dependencies);
            assert(r@ =~= self@);
        }
        r
    }
}

impl PartialEq for Manifest {
    /// Two index entries name the same build when name, version and
    /// release agree; dependencies and source do not enter.
    fn eq(&self, other: &Self) -> (r: bool) {
        self.name == other.name && self.version == other.version && self.release == other.release
    }
}

impl vstd::std_specs::cmp::PartialEqSpecImpl for Manifest {
    open spec fn obeys_eq_spec() -> bool {
        true
    }

    open spec fn eq_spec(&self, other: &Self) -> bool {
        self@.name == other@.name && self@.version == other@.version && self@.release
            == other@.release
    }
}

/// No two manifests of the list name the same package.
pub open spec fn unique_manifest_names(ms: Seq<Manifest>) -> bool {
    forall|i: int, j: int|
        0 <= i < j < ms.len() ==> (#[trigger] ms[i])@.name != (#[trigger] ms[j])@.name
}

/// The full package name, as artifact files are named.
pub open spec fn spec_fullname(m: ManifestV) -> Seq<char> {
    m.name + seq!['-'] + m.version + seq!['-'] + dec_digits(m.release as nat)
}

impl Manifest {
    /// `name-version-release`, the artifact stem of this entry.
    pub fn fullname(&self) -> (r: String)
        ensures
            r@ == spec_fullname(self@),
    {
        let mut out = self.name.clone();
        push_char(&mut out, '-');
        let mut out2 = out;
        out2.append(self.version.as_str());
        push_char(&mut out2, '-');
        let digits = u64_to_dec(self.release);
        out2.append(digits.as_str());
        proof {
            assert(out2@ =~= spec_fullname(self@));
        }
        out2
    }
}

// ---------------------------------------------------------------------------
// The index
// ---------------------------------------------------------------------------

/// The package index: manifests keyed by package name.
pub struct Index {
    entries: Vec<(String, Manifest)>,
}

impl Index {
    /// The map the index denotes.
    pub closed spec fn map_view(self) -> Map<Seq<char>, ManifestV> {
        assoc_map(self.entries@)
    }

    pub closed spec fn wf(self) -> bool {
        &&& unique_keys(self.entries@)
        &&& forall|i: int|
            0 <= i < self.entries@.len() ==> (#[trigger] self.entries@[i]).0@
                == self.entries@[i].1@.name
    }

    /// Every indexed manifest is keyed by its own name.
    pub proof fn lemma_keys_are_names(self, k: Seq<char>)
        requires
            self.wf(),
            self.map_view().contains_key(k),
        ensures
            self.map_view()[k].name == k,
    {
        lemma_assoc_map_dom(self.entries@, k);
        let i = choose|i: int| 0 <= i < self.entries@.len() && (#[trigger] self.entries@[i]).0@ == k;
        lemma_assoc_map_get(self.entries@, i);
    }

    /// Builds an index from manifests; refused exactly when two share a
    /// name.
    pub fn from_manifests(manifests: Vec<Manifest>) -> (r: Option<Index>)
        ensures
            r is Some <==> unique_manifest_names(manifests@),
            (r matches Some(idx) ==> {
                &&& idx.wf()
                &&& forall|i: int|
                    0 <= i < manifests@.len() ==> idx.map_view().contains_key(
                        (#[trigger] manifests@[i])@.name,
                    )
                &&& forall|k: Seq<char>|
                    idx.map_view().contains_key(k) ==> exists|i: int|
                        0 <= i < manifests@.len() && (#[trigger] manifests@[i])@.name == k
                &&& forall|i: int|
                    0 <= i < manifests@.len() ==> idx.map_view()[(
                    #[trigger] manifests@[i])@.name] == manifests@[i]@
            }),
    {
        let mut entries: Vec<(String, Manifest)> = Vec::new();
        let n = manifests.len();
        for i in 0..n
            invariant
                n == manifests@.len(),
                entries@.len() == i,
                unique_keys(entries@),
                forall|k: int|
                    0 <= k < i ==> (#[trigger] entries@[k]).0@ == manifests@[k]@.name
                        && entries@[k].1@ == manifests@[k]@,
            decreases n - i,
        {
            let m = &manifests[i];
            let mut dup = false;
            let mut j: usize = 0;
            while j < entries.len()
                invariant
                    j <= entries@.len(),
                    dup ==> exists|a: int|
                        0 <= a < entries@.len() && (#[trigger] entries@[a]).0@ == m@.name,
                    !dup ==> forall|a: int|
                        0 <= a < j ==> (#[trigger] entries@[a]).0@ != m@.name,
                decreases entries@.len() - j,
            {
                if entries[j].0 == m.name {
                    dup = true;
                }
                j = j + 1;
            }
            if dup {
                proof {
                    let a = choose|a: int|
                        0 <= a < entries@.len() && (#[trigger] entries@[a]).0@ == m@.name;
                    assert(manifests@[a]@.name == manifests@[i as int]@.name);
                    assert(!unique_manifest_names(manifests@));
                }
                return None;
            }
            let ghost before = entries@;
            entries.push((m.name.clone(), m.clone()));
            proof {
                assert forall|a: int, b: int|
                    0 <= a < b < entries@.len() implies (#[trigger] entries@[a]).0@ != (
                #[trigger] entries@[b]).0@ by {
                    if b == entries@.len() - 1 {
                        assert(before[a].0@ != m@.name);
                    }
                }
            }
        }
        let idx = Index { entries };
        proof {
            assert forall|i: int, j: int|
                0 <= i < j < manifests@.len() implies (#[trigger] manifests@[i])@.name != (
            #[trigger] manifests@[j])@.name by {
                assert(idx.entries@[i].0@ == manifests@[i]@.name);
                assert(idx.entries@[j].0@ == manifests@[j]@.name);
            }
            assert forall|i: int|
                0 <= i < manifests@.len() implies idx.map_view().contains_key(
                (#[trigger] manifests@[i])@.name,
            ) && idx.map_view()[manifests@[i]@.name] == manifests@[i]@ by {
                lemma_assoc_map_get(idx.entries@, i);
            }
            assert forall|k: Seq<char>| idx.map_view().contains_key(k) implies exists|i: int|
                0 <= i < manifests@.len() && (#[trigger] manifests@[i])@.name == k by {
                lemma_assoc_map_dom(idx.entries@, k);
                let i = choose|i: int|
                    0 <= i < idx.entries@.len() && (#[trigger] idx.entries@[i]).0@ == k;
                assert(manifests@[i]@.name == k);
            }
        }
        Some(idx)
    }

    /// Looks a manifest up by package name.
    pub fn get(&self, name: &String) -> (r: Option<&Manifest>)
        requires
            self.wf(),
        ensures
            (r matches Some(m) ==> self.map_view().contains_key(name@) && self.map_view()[name@]
                == m@),
            r is None ==> !self.map_view().contains_key(name@),
    {
        let n = self.entries.len();
        for i in 0..n
            invariant
                n == self.entries@.len(),
                self.wf(),
                forall|k: int| 0 <= k < i ==> (#[trigger] self.entries@[k]).0@ != name@,
            decreases n - i,
        {
            if self.entries[i].0 == *name {
                proof {
                    lemma_assoc_map_get(self.entries@, i as int);
                }
                return Some(&self.entries[i].1);
            }
        }
        proof {
            lemma_assoc_map_dom(self.entries@, name@);
        }
        None
    }

    /// The index lists finitely many packages.
    pub proof fn lemma_dom_finite(self)
        requires
            self.wf(),
        ensures
            self.map_view().dom().finite(),
    {
        crate::db::lemma_assoc_map_dom_len(self.entries@);
    }

    /// How many packages the index lists.
    pub fn len(&self) -> (r: usize)
        requires
            self.wf(),
        ensures
            r == self.map_view().dom().len(),
    {
        proof {
            crate::db::lemma_assoc_map_dom_len(self.entries@);
        }
        self.entries.len()
    }
}

// ---------------------------------------------------------------------------
// Upgrade delta and orphans
// ---------------------------------------------------------------------------

/// Whether an indexed manifest calls for an install: yes when nothing is
/// installed, or when name, version or release differ.
pub fn upgrade_needed(old: Option<&Manifest>, incoming: &Manifest) -> (r: bool)
    ensures
        r == match old {
            None => true,
            Some(o) => !(o@.name == incoming@.name && o@.version == incoming@.version && o@.release
                == incoming@.release),
        },
{
    match old {
        None => true,
        Some(o) => !(*o == *incoming),
    }
}

/// The installed names not in the keep list, in order.
pub open spec fn spec_orphans(installed: Seq<Seq<char>>, keep: Seq<Seq<char>>) -> Seq<Seq<char>>
    decreases installed.len(),
{
    if installed.len() == 0 {
        Seq::empty()
    } else {
        let rest = spec_orphans(installed.drop_last(), keep);
        if !keep.contains(installed.last()) {
            rest.push(installed.last())
        } else {
            rest
        }
    }
}

/// The installed packages that the resolved set no longer wants.
pub fn orphans(installed: &Vec<String>, keep: &Vec<String>) -> (r: Vec<String>)
    ensures
        r.deep_view() == spec_orphans(installed.deep_view(), keep.deep_view()),
{
    let mut out: Vec<String> = Vec::new();
    let n = installed.len();
    let ghost iv = installed.deep_view();
    let ghost kv = keep.deep_view();
    proof {
        assert(iv.take(0) =~= Seq::<Seq<char>>::empty());
        assert(out.deep_view() =~= spec_orphans(iv.take(0), kv));
    }
    for i in 0..n
        invariant
            n == installed@.len(),
            iv == installed.deep_view(),
            kv == keep.deep_view(),
            iv.len() == n,
            out.deep_view() == spec_orphans(iv.take(i as int), kv),
        decreases n - i,
    {
        proof {
            assert(iv.take(i as int).push(iv[i as int]) =~= iv.take(i + 1));
            assert(iv.take(i + 1).drop_last() =~= iv.take(i as int));
        }
        let mut found = false;
        let m = keep.len();
        for j in 0..m
            invariant
                m == keep@.len(),
                kv == keep.deep_view(),
                iv == installed.deep_view(),
                i < n == installed@.len(),
                found ==> kv.contains(iv[i as int]),
                !found ==> forall|a: int| 0 <= a < j ==> kv[a] != iv[i as int],
            decreases m - j,
        {
            if keep[j] == installed[i] {
                proof {
                    assert(kv[j as int] == iv[i as int]);
                }
                found = true;
            }
        }
        if !found {
            let ghost dv_before = out.deep_view();
            out.push(installed[i].clone());
            proof {
                assert(!kv.contains(iv[i as int]));
                assert(out.deep_view() =~~= dv_before.push(iv[i as int]));
            }
        } else {
            proof {
                assert(kv.contains(iv[i as int]));
            }
        }
    }
    proof {
        assert(iv.take(n as int) =~= iv);
    }
    out
}

// ---------------------------------------------------------------------------
// The dependency resolver
// ---------------------------------------------------------------------------

/// Some name of the list equals this one.
pub open spec fn names_contain(s: Seq<String>, k: Seq<char>) -> bool {
    exists|i: int| 0 <= i < s.len() && (#[trigger] s[i])@ == k
}

/// No name appears twice.
pub open spec fn distinct_names(s: Seq<String>) -> bool {
    forall|a: int, b: int| 0 <= a < b < s.len() ==> (#[trigger] s[a])@ != (#[trigger] s[b])@
}

/// The resolver's running state: the output has no duplicates, and
/// every output name has been visited.
pub open spec fn rs_inv(seen: Seq<String>, out: Seq<String>) -> bool {
    &&& distinct_names(out)
    &&& forall|a: int| 0 <= a < out.len() ==> names_contain(seen, (#[trigger] out[a])@)
}

proof fn lemma_names_mono(s1: Seq<String>, s2: Seq<String>, k: Seq<char>)
    requires
        s1.len() <= s2.len(),
        forall|a: int| 0 <= a < s1.len() ==> s2[a] == s1[a],
        names_contain(s1, k),
    ensures
        names_contain(s2, k),
{
    let w = choose|i: int| 0 <= i < s1.len() && (#[trigger] s1[i])@ == k;
    assert(s2[w]@ == k);
}

fn contains_name(v: &Vec<String>, name: &String) -> (r: bool)
    ensures
        r == names_contain(v@, name@),
{
    let n = v.len();
    for i in 0..n
        invariant
            n == v@.len(),
            forall|k: int| 0 <= k < i ==> (#[trigger] v@[k])@ != name@,
        decreases n - i,
    {
        if v[i] == *name {
            proof {
                assert(v@[i as int]@ == name@);
            }
            return true;
        }
    }
    false
}

/// The set of names a list holds.
pub open spec fn seen_names(s: Seq<String>) -> Set<Seq<char>> {
    Set::new(|k: Seq<char>| names_contain(s, k))
}

/// A dependency path of length at most `fuel` from `from` to `to`:
/// either the two are equal, or `from` is indexed and some dependency
/// of it reaches `to`.
pub open spec fn reaches(
    imap: Map<Seq<char>, ManifestV>,
    from: Seq<char>,
    to: Seq<char>,
    fuel: nat,
) -> bool
    decreases fuel,
{
    from == to || (fuel > 0 && imap.contains_key(from) && exists|d: int|
        0 <= d < imap[from].dependencies.len() && reaches(
            imap,
            #[trigger] imap[from].dependencies[d],
            to,
            (fuel - 1) as nat,
        ))
}

/// Some dependency path leads from `from` to `to`.
pub open spec fn reachable_from(imap: Map<Seq<char>, ManifestV>, from: Seq<char>, to: Seq<char>) -> bool {
    exists|f: nat| reaches(imap, from, to, f)
}

proof fn lemma_seen_names_mono(s1: Seq<String>, s2: Seq<String>)
    requires
        s1.len() <= s2.len(),
        forall|a: int| 0 <= a < s1.len() ==> s2[a] == s1[a],
    ensures
        seen_names(s1).subset_of(seen_names(s2)),
{
    assert forall|k: Seq<char>| seen_names(s1).contains(k) implies seen_names(s2).contains(
        k,
    ) by {
        lemma_names_mono(s1, s2, k);
    }
}

/// The `d`-th dependency name of an indexed package.
pub open spec fn dep_of(imap: Map<Seq<char>, ManifestV>, k: Seq<char>, d: int) -> Seq<char> {
    imap[k].dependencies[d]
}

/// A ranking that strictly descends along every dependency edge between
/// indexed packages: the witness that the dependency graph is acyclic.
pub open spec fn ranked(imap: Map<Seq<char>, ManifestV>, rank: Map<Seq<char>, nat>) -> bool {
    forall|k: Seq<char>, d: int|
        imap.contains_key(k) && 0 <= d < imap[k].dependencies.len() && imap.contains_key(
            #[trigger] dep_of(imap, k, d),
        ) ==> rank[dep_of(imap, k, d)] < rank[k]
}

/// Every dependency of a listed package from position `lo` on appears
/// at an earlier position, or already stood in `base`.
pub open spec fn deps_resolved_before(
    imap: Map<Seq<char>, ManifestV>,
    out: Seq<String>,
    lo: int,
    base: Seq<String>,
) -> bool {
    forall|a: int, d: int|
        #![trigger dep_of(imap, out[a]@, d)]
        lo <= a < out.len() && imap.contains_key(out[a]@) && 0 <= d < imap[
            out[a]@].dependencies.len() ==> ((exists|b: int|
            0 <= b < a && (#[trigger] out[b])@ == dep_of(imap, out[a]@, d)) || names_contain(
            base,
            dep_of(imap, out[a]@, d),
        ))
}

/// Install-safe order: every dependency of a listed package from
/// position `lo` on appears at an earlier position, with no prior
/// names to fall back on.
pub open spec fn install_order(imap: Map<Seq<char>, ManifestV>, out: Seq<String>, lo: int) -> bool {
    deps_resolved_before(imap, out, lo, Seq::empty())
}

/// A ranking descends along every dependency path that ends at an
/// indexed package.
proof fn lemma_reaches_rank(
    imap: Map<Seq<char>, ManifestV>,
    rank: Map<Seq<char>, nat>,
    x: Seq<char>,
    y: Seq<char>,
    f: nat,
)
    requires
        ranked(imap, rank),
        reaches(imap, x, y, f),
        imap.contains_key(y),
    ensures
        rank[y] <= rank[x],
    decreases f,
{
    if x == y {
    } else {
        let d = choose|d: int|
            0 <= d < imap[x].dependencies.len() && reaches(
                imap,
                #[trigger] imap[x].dependencies[d],
                y,
                (f - 1) as nat,
            );
        let mid = imap[x].dependencies[d];
        assert(mid == dep_of(imap, x, d));
        if imap.contains_key(mid) {
            lemma_reaches_rank(imap, rank, mid, y, (f - 1) as nat);
        } else {
            assert(mid == y);
        }
    }
}

/// Dependencies resolved before or already listed in a prefix are
/// simply listed before.
proof fn lemma_order_from_resolved(
    imap: Map<Seq<char>, ManifestV>,
    out: Seq<String>,
    lo: int,
    base: Seq<String>,
)
    requires
        deps_resolved_before(imap, out, lo, base),
        base.len() <= lo,
        forall|w: int| 0 <= w < base.len() ==> (#[trigger] base[w])@ == out[w]@,
    ensures
        install_order(imap, out, lo),
{
    assert forall|a: int, d: int|
        #![trigger dep_of(imap, out[a]@, d)]
        lo <= a < out.len() && imap.contains_key(out[a]@) && 0 <= d < imap[
            out[a]@].dependencies.len() implies ((exists|b: int|
        0 <= b < a && (#[trigger] out[b])@ == dep_of(imap, out[a]@, d)) || names_contain(
        Seq::empty(),
        dep_of(imap, out[a]@, d),
    )) by {
        let dep = dep_of(imap, out[a]@, d);
        if !(exists|b: int| 0 <= b < a && (#[trigger] out[b])@ == dep) {
            assert(names_contain(base, dep));
            let w = choose|w: int| 0 <= w < base.len() && (#[trigger] base[w])@ == dep;
            assert(out[w]@ == dep);
            assert(false);
        }
    }
}

/// Post-order walk below one name. `seen` marks every name whose walk
/// has started; `out` receives a name after its dependencies. The walk
/// cannot run out of budget: every recursion step takes an unvisited
/// indexed name, so the unvisited part of the index bounds the depth.
fn resolve_into(
    index: &Index,
    seen: &mut Vec<String>,
    out: &mut Vec<String>,
    name: &String,
    fuel: u64,
) -> (r: Result<(), MeowError>)
    requires
        index.wf(),
        rs_inv(old(seen)@, old(out)@),
        index.map_view().dom().finite(),
        fuel >= index.map_view().dom().difference(seen_names(old(seen)@)).len(),
    ensures
        rs_inv(final(seen)@, final(out)@),
        final(out)@.len() >= old(out)@.len(),
        forall|a: int| 0 <= a < old(out)@.len() ==> final(out)@[a] == old(out)@[a],
        final(seen)@.len() >= old(seen)@.len(),
        forall|a: int| 0 <= a < old(seen)@.len() ==> final(seen)@[a] == old(seen)@[a],
        forall|a: int|
            old(out)@.len() <= a < final(out)@.len() ==> !names_contain(
                old(seen)@,
                (#[trigger] final(out)@[a])@,
            ),
        r is Ok ==> names_contain(final(seen)@, name@),
        r is Ok ==> (forall|a: int|
            old(out)@.len() <= a < final(out)@.len() ==> index.map_view().contains_key(
                (#[trigger] final(out)@[a])@,
            ) && (forall|d: int|
                0 <= d < index.map_view()[final(out)@[a]@].dependencies.len() ==> names_contain(
                    final(seen)@,
                    index.map_view()[final(out)@[a]@].dependencies[d],
                ))),
        r is Ok ==> (forall|a: int|
            old(seen)@.len() <= a < final(seen)@.len() ==> names_contain(
                final(out)@,
                (#[trigger] final(seen)@[a])@,
            )),
        (names_contain(old(seen)@, name@) && r is Ok) ==> (final(out)@ == old(out)@
            && final(seen)@ == old(seen)@),
        (r is Ok && !names_contain(old(seen)@, name@)) ==> (final(out)@.len() > old(out)@.len()
            && final(out)@[final(out)@.len() - 1]@ == name@),
        r is Ok ==> (forall|a: int|
            old(out)@.len() <= a < final(out)@.len() ==> reachable_from(
                index.map_view(),
                name@,
                (#[trigger] final(out)@[a])@,
            )),
        r is Ok ==> (forall|rank: Map<Seq<char>, nat>|
            ranked(index.map_view(), rank) ==> deps_resolved_before(
                index.map_view(),
                final(out)@,
                old(out)@.len() as int,
                old(seen)@,
            )),
        r matches Err(e) ==> e is MissingPackage,
        (r matches Err(e) ==> (e matches MeowError::MissingPackage { name: d }
            ==> !index.map_view().contains_key(d@) && reachable_from(
                index.map_view(),
                name@,
                d@,
            ))),
    decreases fuel,
{
    if contains_name(seen, name) {
        return Ok(());
    }
    let m = match index.get(name) {
        Some(m) => m,
        None => {
            let missing = name.clone();
            proof {
                assert(missing@ == name@);
                assert(reaches(index.map_view(), name@, missing@, 0));
                assert(reachable_from(index.map_view(), name@, missing@));
            }
            return Err(MeowError::MissingPackage { name: missing });
        },
    };
    proof {
        let dom = index.map_view().dom();
        let diff0 = dom.difference(seen_names(seen@));
        assert(diff0.contains(name@));
        vstd::set_lib::lemma_len_subset(diff0, dom);
        vstd::set::axiom_set_remove_len(diff0, name@);
        assert(fuel >= 1);
    }
    let ghost seen0 = seen@;
    let ghost out0 = out@;
    seen.push(name.clone());
    proof {
        assert(seen@[seen@.len() - 1]@ == name@);
        assert forall|a: int| 0 <= a < out@.len() implies names_contain(
            seen@,
            (#[trigger] out@[a])@,
        ) by {
            lemma_names_mono(seen0, seen@, out@[a]@);
        }
        let dom = index.map_view().dom();
        let diff0 = dom.difference(seen_names(seen0));
        let diff1 = dom.difference(seen_names(seen@));
        assert(diff0.contains(name@));
        vstd::set_lib::lemma_len_subset(diff0, dom);
        vstd::set::axiom_set_remove_len(diff0, name@);
        vstd::set::axiom_set_remove_finite(diff0, name@);
        assert(seen_names(seen@).contains(name@)) by {
            assert(seen@[seen0.len() as int]@ == name@);
        }
        assert forall|k: Seq<char>| diff1.contains(k) implies diff0.remove(name@).contains(
            k,
        ) by {
            if names_contain(seen0, k) {
                lemma_names_mono(seen0, seen@, k);
            }
        }
        vstd::set_lib::lemma_len_subset(diff1, diff0.remove(name@));
        assert(diff1.len() <= fuel - 1);
    }
    let nd = m.dependencies.len();
    let ghost seen1 = seen@;
    for i in 0..nd
        invariant
            nd == m.dependencies@.len(),
            index.wf(),
            fuel >= 1,
            index.map_view().dom().finite(),
            index.map_view().dom().difference(seen_names(seen1)).len() <= fuel - 1,
            out0 == old(out)@,
            seen0 == old(seen)@,
            index.map_view().contains_key(name@),
            index.map_view()[name@] == m@,
            rs_inv(seen@, out@),
            seen@.len() >= seen1.len(),
            forall|a: int| 0 <= a < seen1.len() ==> seen@[a] == seen1[a],
            seen1.len() == seen0.len() + 1,
            forall|a: int| 0 <= a < seen0.len() ==> seen1[a] == seen0[a],
            seen1[seen0.len() as int]@ == name@,
            out@.len() >= out0.len(),
            forall|a: int| 0 <= a < out0.len() ==> out@[a] == out0[a],
            !names_contain(seen0, name@),
            forall|a: int|
                out0.len() <= a < out@.len() ==> !names_contain(
                    seen1,
                    (#[trigger] out@[a])@,
                ),
            forall|d: int| 0 <= d < i ==> names_contain(seen@, m.dependencies@[d as int]@),
            forall|a: int|
                out0.len() <= a < out@.len() ==> index.map_view().contains_key(
                    (#[trigger] out@[a])@,
                ) && (forall|d: int|
                    0 <= d < index.map_view()[out@[a]@].dependencies.len() ==> names_contain(
                        seen@,
                        index.map_view()[out@[a]@].dependencies[d],
                    )),
            forall|a: int|
                seen1.len() <= a < seen@.len() ==> names_contain(
                    out@,
                    (#[trigger] seen@[a])@,
                ),
            forall|a: int|
                out0.len() <= a < out@.len() ==> reachable_from(
                    index.map_view(),
                    name@,
                    (#[trigger] out@[a])@,
                ),
            forall|rank: Map<Seq<char>, nat>|
                ranked(index.map_view(), rank) ==> deps_resolved_before(
                    index.map_view(),
                    out@,
                    out0.len() as int,
                    seen0,
                ),
        decreases nd - i,
    {
        let dep_name = &m.dependencies[i];
        let ghost seen_b = seen@;
        let ghost out_b = out@;
        proof {
            assert(dep_name@ == m.dependencies@[i as int]@);
            assert(forall|w: int|
                seen1.len() <= w < seen_b.len() ==> names_contain(
                    out_b,
                    (#[trigger] seen_b[w])@,
                ));
            let dom = index.map_view().dom();
            lemma_seen_names_mono(seen1, seen@);
            assert(dom.difference(seen_names(seen@)).subset_of(
                dom.difference(seen_names(seen1)),
            ));
            vstd::set_lib::lemma_len_subset(dom.difference(seen_names(seen1)), dom);
            vstd::set_lib::lemma_len_subset(
                dom.difference(seen_names(seen@)),
                dom.difference(seen_names(seen1)),
            );
        }
        match resolve_into(index, seen, out, dep_name, fuel - 1) {
            Ok(_) => {},
            Err(e) => {
                proof {
                    assert forall|a: int|
                        out0.len() <= a < out@.len() implies !names_contain(
                        seen0,
                        (#[trigger] out@[a])@,
                    ) by {
                        if names_contain(seen0, out@[a]@) {
                            lemma_names_mono(seen0, seen1, out@[a]@);
                        }
                    }
                    if let MeowError::MissingPackage { name: d } = &e {
                        assert(reachable_from(index.map_view(), dep_name@, d@));
                        let f = choose|f: nat| reaches(index.map_view(), dep_name@, d@, f);
                        assert(index.map_view()[name@].dependencies[i as int] == dep_name@);
                        assert(reaches(index.map_view(), name@, d@, f + 1));
                        assert(reachable_from(index.map_view(), name@, d@));
                    }
                }
                return Err(e);
            },
        }
        proof {
            assert forall|d: int| 0 <= d < i + 1 implies names_contain(
                seen@,
                m.dependencies@[d as int]@,
            ) by {
                if d < i {
                    lemma_names_mono(seen_b, seen@, m.dependencies@[d as int]@);
                } else {
                    assert(m@.dependencies[d] == m.dependencies@[d as int]@);
                }
            }
            assert forall|a: int|
                out0.len() <= a < out@.len() implies !names_contain(
                seen1,
                (#[trigger] out@[a])@,
            ) by {
                if a < out_b.len() {
                } else {
                    if names_contain(seen1, out@[a]@) {
                        lemma_names_mono(seen1, seen_b, out@[a]@);
                    }
                }
            }
            assert forall|a: int|
                out0.len() <= a < out@.len() implies index.map_view().contains_key(
                (#[trigger] out@[a])@,
            ) && (forall|d: int|
                0 <= d < index.map_view()[out@[a]@].dependencies.len() ==> names_contain(
                    seen@,
                    index.map_view()[out@[a]@].dependencies[d],
                )) by {
                if a < out_b.len() {
                    assert(out@[a] == out_b[a]);
                    assert forall|d: int|
                        0 <= d < index.map_view()[out@[a]@].dependencies.len() implies
                        names_contain(
                        seen@,
                        index.map_view()[out@[a]@].dependencies[d],
                    ) by {
                        lemma_names_mono(seen_b, seen@, index.map_view()[out@[a]@].dependencies[d]);
                    }
                }
            }
            assert forall|a: int|
                seen1.len() <= a < seen@.len() implies names_contain(
                out@,
                (#[trigger] seen@[a])@,
            ) by {
                if a < seen_b.len() {
                    assert(seen@[a] == seen_b[a]);
                    lemma_names_mono(out_b, out@, seen@[a]@);
                }
            }
            assert forall|a: int|
                out0.len() <= a < out@.len() implies reachable_from(
                index.map_view(),
                name@,
                (#[trigger] out@[a])@,
            ) by {
                if a < out_b.len() {
                    assert(out@[a] == out_b[a]);
                    assert(reachable_from(index.map_view(), name@, (out_b[a])@));
                } else {
                    assert(reachable_from(index.map_view(), dep_name@, (out@[a])@));
                    let f = choose|f: nat|
                        reaches(index.map_view(), dep_name@, (out@[a])@, f);
                    assert(index.map_view()[name@].dependencies[i as int] == dep_name@);
                    assert(reaches(index.map_view(), name@, (out@[a])@, f + 1));
                    assert(reachable_from(index.map_view(), name@, (out@[a])@));
                }
            }
            assert forall|rank: Map<Seq<char>, nat>|
                ranked(index.map_view(), rank) implies deps_resolved_before(
                index.map_view(),
                out@,
                out0.len() as int,
                seen0,
            ) by {
                let imap = index.map_view();
                assert(deps_resolved_before(imap, out_b, out0.len() as int, seen0));
                assert(deps_resolved_before(imap, out@, out_b.len() as int, seen_b));
                assert forall|a: int, d: int|
                    #![trigger dep_of(imap, out@[a]@, d)]
                    out0.len() <= a < out@.len() && imap.contains_key(out@[a]@) && 0 <= d < imap[
                        out@[a]@].dependencies.len() implies ((exists|b: int|
                        0 <= b < a && (#[trigger] out@[b])@ == dep_of(imap, out@[a]@, d))
                        || names_contain(seen0, dep_of(imap, out@[a]@, d))) by {
                    let dep = dep_of(imap, out@[a]@, d);
                    if a < out_b.len() {
                        assert(out@[a] == out_b[a]);
                        assert(dep_of(imap, out_b[a]@, d) == dep);
                        if exists|b: int| 0 <= b < a && (#[trigger] out_b[b])@ == dep {
                            let b = choose|b: int| 0 <= b < a && (#[trigger] out_b[b])@ == dep;
                            assert(out@[b]@ == dep);
                        }
                    } else {
                        if !(exists|b: int| 0 <= b < a && (#[trigger] out@[b])@ == dep) {
                            assert(names_contain(seen_b, dep));
                            let w = choose|w: int|
                                0 <= w < seen_b.len() && (#[trigger] seen_b[w])@ == dep;
                            if w < seen0.len() {
                                assert(seen_b[w] == seen0[w]);
                                assert(names_contain(seen0, dep)) by {
                                    assert(seen0[w]@ == dep);
                                }
                            } else if w == seen0.len() {
                                assert(seen_b[w] == seen1[w]);
                                assert(dep == name@);
                                assert(reachable_from(imap, name@, (out@[a])@));
                                let f = choose|f: nat| reaches(imap, name@, (out@[a])@, f);
                                lemma_reaches_rank(imap, rank, name@, out@[a]@, f);
                                assert(rank[dep_of(imap, out@[a]@, d)] < rank[out@[a]@]);
                                assert(false);
                            } else {
                                assert(names_contain(out_b, seen_b[w]@));
                                let b = choose|b: int|
                                    0 <= b < out_b.len() && (#[trigger] out_b[b])@ == dep;
                                assert(out@[b]@ == dep);
                            }
                        }
                    }
                }
            }
        }
    }
    let ghost out_pre = out@;
    out.push(name.clone());
    proof {
        assert(out@[out@.len() - 1]@ == name@);
        assert(distinct_names(out@)) by {
            assert forall|a: int, b: int|
                0 <= a < b < out@.len() implies (#[trigger] out@[a])@ != (#[trigger] out@[b])@ by {
                if b == out@.len() - 1 {
                    if out@[a]@ == name@ {
                        if a < out0.len() {
                            assert(names_contain(seen0, out0[a]@));
                        } else {
                            assert(!names_contain(seen1, out_pre[a]@));
                            assert(seen1[seen0.len() as int]@ == name@);
                        }
                    }
                }
            }
        }
        assert forall|a: int| 0 <= a < out@.len() implies names_contain(
            seen@,
            (#[trigger] out@[a])@,
        ) by {
            if a < out@.len() - 1 {
                lemma_names_mono(out_pre, out@, out@[a]@);
                assert(names_contain(seen@, out_pre[a]@));
            } else {
                lemma_names_mono(seen1, seen@, name@);
            }
        }
        assert forall|a: int|
            out0.len() <= a < out@.len() implies !names_contain(
            seen0,
            (#[trigger] out@[a])@,
        ) by {
            if a < out@.len() - 1 {
                if names_contain(seen0, out@[a]@) {
                    lemma_names_mono(seen0, seen1, out@[a]@);
                }
            }
        }
        assert forall|a: int|
            out0.len() <= a < out@.len() implies index.map_view().contains_key(
            (#[trigger] out@[a])@,
        ) && (forall|d: int|
            0 <= d < index.map_view()[out@[a]@].dependencies.len() ==> names_contain(
                seen@,
                index.map_view()[out@[a]@].dependencies[d],
            )) by {
            if a == out@.len() - 1 {
                assert(out@[a]@ == name@);
                assert(index.map_view()[name@] == m@);
                assert forall|d: int|
                    0 <= d < index.map_view()[name@].dependencies.len() implies names_contain(
                    seen@,
                    index.map_view()[name@].dependencies[d],
                ) by {
                    assert(m@.dependencies[d] == m.dependencies@[d as int]@);
                    assert(names_contain(seen@, m.dependencies@[d as int]@));
                }
            }
        }
        assert forall|a: int|
            seen0.len() <= a < seen@.len() implies names_contain(
            out@,
            (#[trigger] seen@[a])@,
        ) by {
            if a == seen0.len() {
                assert(seen@[a]@ == name@);
                assert(out@[out@.len() - 1]@ == name@);
            } else {
                lemma_names_mono(out_pre, out@, seen@[a]@);
            }
        }
        lemma_names_mono(seen1, seen@, name@);
        assert forall|a: int|
            out0.len() <= a < out@.len() implies reachable_from(
            index.map_view(),
            name@,
            (#[trigger] out@[a])@,
        ) by {
            if a < out@.len() - 1 {
                assert(out@[a] == out_pre[a]);
                assert(reachable_from(index.map_view(), name@, (out_pre[a])@));
            } else {
                assert((out@[a])@ == name@);
                assert(reaches(index.map_view(), name@, (out@[a])@, 0));
                assert(reachable_from(index.map_view(), name@, (out@[a])@));
            }
        }
        assert forall|rank: Map<Seq<char>, nat>|
            ranked(index.map_view(), rank) implies deps_resolved_before(
            index.map_view(),
            out@,
            out0.len() as int,
            seen0,
        ) by {
            let imap = index.map_view();
            assert(deps_resolved_before(imap, out_pre, out0.len() as int, seen0));
            assert forall|a: int, d: int|
                #![trigger dep_of(imap, out@[a]@, d)]
                out0.len() <= a < out@.len() && imap.contains_key(out@[a]@) && 0 <= d < imap[
                    out@[a]@].dependencies.len() implies ((exists|b: int|
                    0 <= b < a && (#[trigger] out@[b])@ == dep_of(imap, out@[a]@, d))
                    || names_contain(seen0, dep_of(imap, out@[a]@, d))) by {
                let dep = dep_of(imap, out@[a]@, d);
                if a < out@.len() - 1 {
                    assert(out@[a] == out_pre[a]);
                    assert(dep_of(imap, out_pre[a]@, d) == dep);
                    if exists|b: int| 0 <= b < a && (#[trigger] out_pre[b])@ == dep {
                        let b = choose|b: int| 0 <= b < a && (#[trigger] out_pre[b])@ == dep;
                        assert(out@[b]@ == dep);
                    }
                } else {
                    assert(out@[a]@ == name@);
                    assert(imap[name@] == m@);
                    assert(dep == m.dependencies@[d]@);
                    assert(names_contain(seen@, m.dependencies@[d]@));
                    let w = choose|w: int| 0 <= w < seen@.len() && (#[trigger] seen@[w])@ == dep;
                    if w < seen0.len() {
                        assert(seen@[w] == seen0[w]);
                        assert(names_contain(seen0, dep)) by {
                            assert(seen0[w]@ == dep);
                        }
                    } else if w == seen0.len() {
                        assert(seen@[w] == seen1[w]);
                        assert(dep == name@);
                        assert(imap.contains_key(dep_of(imap, name@, d)));
                        assert(rank[dep_of(imap, name@, d)] < rank[name@]);
                        assert(false);
                    } else {
                        assert(names_contain(out_pre, seen@[w]@));
                        let b = choose|b: int|
                            0 <= b < out_pre.len() && (#[trigger] out_pre[b])@ == dep;
                        assert(out@[b]@ == dep);
                        assert(b < a);
                    }
                }
            }
        }
    }
    Ok(())
}

/// Resolves the transitive dependencies of one manifest into
/// `packages`, dependencies first, skipping names already there. On
/// success the appended names are indexed and every dependency of an
/// appended name is in the list; success is owed whenever every name
/// reachable from the manifest is indexed, and the one error names a
/// missing reachable dependency.
pub fn resolve_dependencies(index: &Index, packages: &mut Vec<String>, manifest: &Manifest) -> (r:
    Result<(), MeowError>)
    requires
        index.wf(),
        distinct_names(old(packages)@),
        index.map_view().contains_key(manifest@.name),
        index.map_view()[manifest@.name] == manifest@,
    ensures
        distinct_names(final(packages)@),
        final(packages)@.len() >= old(packages)@.len(),
        forall|a: int| 0 <= a < old(packages)@.len() ==> final(packages)@[a] == old(packages)@[a],
        r is Ok ==> names_contain(final(packages)@, manifest@.name),
        r is Ok ==> (forall|a: int|
            old(packages)@.len() <= a < final(packages)@.len() ==> index.map_view().contains_key(
                (#[trigger] final(packages)@[a])@,
            ) && (forall|d: int|
                0 <= d < index.map_view()[final(packages)@[a]@].dependencies.len()
                    ==> names_contain(
                    final(packages)@,
                    index.map_view()[final(packages)@[a]@].dependencies[d],
                ))),
        r matches Err(e) ==> e is MissingPackage,
        (r matches Err(e) ==> (e matches MeowError::MissingPackage { name: d }
            ==> !index.map_view().contains_key(d@) && reachable_from(
                index.map_view(),
                manifest@.name,
                d@,
            ))),
        (forall|k: Seq<char>|
            reachable_from(index.map_view(), manifest@.name, k)
                ==> index.map_view().contains_key(k)) ==> r is Ok,
        (r is Ok && names_contain(old(packages)@, manifest@.name)) ==> final(packages)@ == old(
            packages,
        )@,
        (r is Ok && !names_contain(old(packages)@, manifest@.name)) ==> (final(packages)@.len()
            > old(packages)@.len() && final(packages)@[final(packages)@.len() - 1]@
            == manifest@.name),
        r is Ok ==> (forall|rank: Map<Seq<char>, nat>|
            ranked(index.map_view(), rank) ==> install_order(
                index.map_view(),
                final(packages)@,
                old(packages)@.len() as int,
            )),
{
    let mut seen: Vec<String> = Vec::new();
    let np = packages.len();
    for i in 0..np
        invariant
            np == packages@.len(),
            seen@.len() == i,
            forall|k: int| 0 <= k < i ==> (#[trigger] seen@[k]) == packages@[k],
        decreases np - i,
    {
        seen.push(packages[i].clone());
        proof {
            assert(seen@[i as int]@ == packages@[i as int]@);
        }
    }
    proof {
        assert(rs_inv(seen@, packages@)) by {
            assert forall|a: int| 0 <= a < packages@.len() implies names_contain(
                seen@,
                (#[trigger] packages@[a])@,
            ) by {
                assert(seen@[a]@ == packages@[a]@);
            }
        }
    }
    let ghost seen_init = seen@;
    let ghost out_init = packages@;
    let fuel = index.len() as u64;
    proof {
        index.lemma_dom_finite();
        vstd::set_lib::lemma_len_subset(
            index.map_view().dom().difference(seen_names(seen@)),
            index.map_view().dom(),
        );
    }
    let r = resolve_into(index, &mut seen, packages, &manifest.name, fuel);
    match r {
        Ok(_) => {
            proof {
                if names_contain(out_init, manifest@.name) {
                    let w = choose|w: int|
                        0 <= w < out_init.len() && (#[trigger] out_init[w])@ == manifest@.name;
                    assert(seen_init[w]@ == manifest@.name);
                    assert(names_contain(seen_init, manifest@.name));
                } else {
                    if names_contain(seen_init, manifest@.name) {
                        let w = choose|w: int|
                            0 <= w < seen_init.len() && (#[trigger] seen_init[w])@
                                == manifest@.name;
                        assert(out_init[w]@ == manifest@.name);
                    }
                    assert(!names_contain(seen_init, manifest@.name));
                }
                let imap = index.map_view();
                assert forall|rank: Map<Seq<char>, nat>| ranked(imap, rank) implies install_order(
                    imap,
                    packages@,
                    out_init.len() as int,
                ) by {
                    assert(deps_resolved_before(imap, packages@, out_init.len() as int, seen_init));
                    assert forall|w: int| 0 <= w < seen_init.len() implies (
                    #[trigger] seen_init[w])@ == packages@[w]@ by {
                        assert(seen_init[w]@ == out_init[w]@);
                        assert(packages@[w] == out_init[w]);
                    }
                    lemma_order_from_resolved(imap, packages@, out_init.len() as int, seen_init);
                }
                assert forall|a: int|
                    out_init.len() <= a < packages@.len() implies index.map_view().contains_key(
                    (#[trigger] packages@[a])@,
                ) && (forall|d: int|
                    0 <= d < index.map_view()[packages@[a]@].dependencies.len() ==> names_contain(
                        packages@,
                        index.map_view()[packages@[a]@].dependencies[d],
                    )) by {
                    assert forall|d: int|
                        0 <= d < index.map_view()[packages@[a]@].dependencies.len() implies
                        names_contain(
                        packages@,
                        index.map_view()[packages@[a]@].dependencies[d],
                    ) by {
                        let dep = index.map_view()[packages@[a]@].dependencies[d];
                        assert(names_contain(seen@, dep));
                        let w = choose|w: int| 0 <= w < seen@.len() && (#[trigger] seen@[w])@ == dep;
                        if w < seen_init.len() {
                            assert(seen_init[w]@ == dep);
                            assert(out_init[w]@ == dep);
                            assert(packages@[w]@ == dep);
                        } else {
                            assert(names_contain(packages@, seen@[w]@));
                        }
                    }
                }
            }
            Ok(())
        },
        Err(e) => {
            proof {
                if let MeowError::MissingPackage { name: d } = &e {
                    if forall|k: Seq<char>|
                        reachable_from(index.map_view(), manifest@.name, k)
                            ==> index.map_view().contains_key(k) {
                        assert(reachable_from(index.map_view(), manifest@.name, d@));
                        assert(index.map_view().contains_key(d@));
                    }
                }
            }
            Err(e)
        },
    }
}

} // verus!
