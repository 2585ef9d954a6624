//! The archive list view: each manifest entry rendered as a display
//! name indented under its parent directories, plus the size totals the
//! info views print.

use vstd::prelude::*;

use crate::meowzip::{entries_view, EntryV, MeowZipEntry};

verus! {

/// Whether `p` is a leading prefix of `s`.
pub open spec fn is_prefix(p: Seq<char>, s: Seq<char>) -> bool {
    p.len() <= s.len() && s.take(p.len() as int) == p
}

/// The display name of a path under a matched prefix: the rest of the
/// path, with one leading slash dropped.
pub open spec fn strip_under(prefix: Seq<char>, path: Seq<char>) -> Seq<char> {
    let rest = path.skip(prefix.len() as int);
    if rest.len() > 0 && rest[0] == '/' {
        rest.skip(1)
    } else {
        rest
    }
}

/// Pops the prefix stack until the current prefix leads the path; a
/// stack run dry keeps the last prefix.
pub open spec fn pop_to_match(stack: Seq<Seq<char>>, prefix: Seq<char>, path: Seq<char>) -> (
    Seq<Seq<char>>,
    Seq<char>,
)
    decreases stack.len(),
{
    if is_prefix(prefix, path) {
        (stack, prefix)
    } else if stack.len() == 0 {
        (stack, prefix)
    } else {
        pop_to_match(stack.drop_last(), stack.last(), path)
    }
}

/// One rendered line of the list view.
pub struct ListRow {
    pub name: String,
    pub depth: usize,
    pub mode: u32,
}

/// The mathematical value of a rendered line.
#[verifier::ext_equal]
pub struct RowV {
    pub name: Seq<char>,
    pub depth: nat,
    pub mode: u32,
}

pub open spec fn rows_view(v: Seq<ListRow>) -> Seq<RowV> {
    Seq::new(v.len(), |i: int| RowV { name: v[i].name@, depth: v[i].depth as nat, mode: v[i].mode })
}

/// The row an entry renders to under the running prefix state, and the
/// state after it: directories push their prefix and become the new one.
pub open spec fn spec_row_step(stack: Seq<Seq<char>>, prefix: Seq<char>, e: EntryV) -> (
    RowV,
    Seq<Seq<char>>,
    Seq<char>,
) {
    let popped = pop_to_match(stack, prefix, e.path);
    let st = popped.0;
    let pf = popped.1;
    let name = if is_prefix(pf, e.path) {
        strip_under(pf, e.path)
    } else {
        e.path
    };
    let row = RowV { name, depth: st.len(), mode: e.mode };
    if crate::errors::spec_file_kind(e.mode) == Some(crate::errors::FileKind::Directory) {
        (row, st.push(pf), e.path)
    } else {
        (row, st, pf)
    }
}

/// All rows of a manifest, in order, from an empty prefix state.
pub open spec fn spec_rows_from(
    es: Seq<EntryV>,
    i: int,
    stack: Seq<Seq<char>>,
    prefix: Seq<char>,
) -> Seq<RowV>
    decreases es.len() - i,
{
    if i < 0 || i >= es.len() {
        Seq::empty()
    } else {
        let step = spec_row_step(stack, prefix, es[i]);
        seq![step.0] + spec_rows_from(es, i + 1, step.1, step.2)
    }
}

/// The list view of a manifest.
pub open spec fn spec_rows(es: Seq<EntryV>) -> Seq<RowV> {
    spec_rows_from(es, 0, Seq::empty(), Seq::empty())
}

fn str_is_prefix(p: &str, s: &str) -> (r: bool)
    ensures
        r == is_prefix(p@, s@),
{
    let pn = p.unicode_len();
    let sn = s.unicode_len();
    if pn > sn {
        return false;
    }
    for i in 0..pn
        invariant
            pn == p@.len(),
            sn == s@.len(),
            pn <= sn,
            forall|k: int| 0 <= k < i ==> p@[k] == s@[k],
        decreases pn - i,
    {
        if p.get_char(i) != s.get_char(i) {
            proof {
                assert(s@.take(pn as int)[i as int] != p@[i as int]);
            }
            return false;
        }
    }
    proof {
        assert(s@.take(pn as int) =~= p@);
    }
    true
}

fn strip_name(prefix: &str, path: &str) -> (r: String)
    requires
        is_prefix(prefix@, path@),
    ensures
        r@ == strip_under(prefix@, path@),
{
    let pn = prefix.unicode_len();
    let sn = path.unicode_len();
    let rest = path.substring_char(pn, sn);
    let rn = rest.unicode_len();
    if rn > 0 && rest.get_char(0) == '/' {
        let out = rest.substring_char(1, rn).to_owned();
        proof {
            assert(path@.skip(pn as int) =~= path@.subrange(pn as int, sn as int));
            assert(out@ =~= strip_under(prefix@, path@));
        }
        out
    } else {
        let out = rest.to_owned();
        proof {
            assert(path@.skip(pn as int) =~= path@.subrange(pn as int, sn as int));
            assert(out@ =~= strip_under(prefix@, path@));
        }
        out
    }
}

/// Renders the manifest as the nested list view: each entry named
/// relative to the innermost directory that leads it, indented by the
/// directory depth.
pub fn listing_rows(filelist: &Vec<MeowZipEntry>) -> (r: Vec<ListRow>)
    ensures
        rows_view(r@) == spec_rows(entries_view(filelist@)),
{
    let ghost ev = entries_view(filelist@);
    let mut out: Vec<ListRow> = Vec::new();
    let mut stack: Vec<String> = Vec::new();
    let mut prefix: String = String::new();
    let n = filelist.len();
    proof {
        assert(stack.deep_view() =~= Seq::<Seq<char>>::empty());
        assert(rows_view(out@) =~= Seq::<RowV>::empty());
        assert(Seq::<RowV>::empty() + spec_rows_from(ev, 0, stack.deep_view(), prefix@)
            =~= spec_rows_from(ev, 0, stack.deep_view(), prefix@));
    }
    for i in 0..n
        invariant
            n == filelist@.len(),
            ev == entries_view(filelist@),
            spec_rows(ev) == rows_view(out@) + spec_rows_from(
                ev,
                i as int,
                stack.deep_view(),
                prefix@,
            ),
        decreases n - i,
    {
        let e = &filelist[i];
        let ghost rows0 = rows_view(out@);
        let ghost st0 = stack.deep_view();
        let ghost pf0 = prefix@;
        let ghost pathg = ev[i as int].path;
        proof {
            assert(pathg == e.filepath@);
        }
        loop
            invariant
                pathg == e.filepath@,
                pop_to_match(stack.deep_view(), prefix@, pathg) == pop_to_match(st0, pf0, pathg),
            ensures
                (stack.deep_view(), prefix@) == pop_to_match(st0, pf0, pathg),
                is_prefix(prefix@, pathg) || stack.deep_view().len() == 0,
            decreases stack@.len(),
        {
            if str_is_prefix(prefix.as_str(), e.filepath.as_str()) {
                proof {
                    assert(pop_to_match(stack.deep_view(), prefix@, pathg) == (
                        stack.deep_view(),
                        prefix@,
                    ));
                }
                break ;
            }
            let ghost sd_before = stack.deep_view();
            match stack.pop() {
                Some(top) => {
                    proof {
                        assert(stack.deep_view() =~~= sd_before.drop_last());
                        assert(top@ == sd_before.last());
                    }
                    prefix = top;
                },
                None => {
                    proof {
                        assert(sd_before.len() == 0);
                        assert(pop_to_match(stack.deep_view(), prefix@, pathg) == (
                            stack.deep_view(),
                            prefix@,
                        ));
                    }
                    break ;
                },
            }
        }
        let ghost step = spec_row_step(st0, pf0, ev[i as int]);
        let matched = str_is_prefix(prefix.as_str(), e.filepath.as_str());
        let name = if matched {
            strip_name(prefix.as_str(), e.filepath.as_str())
        } else {
            e.filepath.clone()
        };
        let row = ListRow { name, depth: stack.len(), mode: e.mode };
        proof {
            assert(stack.deep_view().len() == stack@.len());
            assert(RowV { name: row.name@, depth: row.depth as nat, mode: row.mode } == step.0);
        }
        out.push(row);
        let is_dir = crate::errors::file_kind_of_mode(e.mode) == Some(
            crate::errors::FileKind::Directory,
        );
        if is_dir {
            let old_prefix = prefix;
            let ghost sd_before = stack.deep_view();
            let ghost pf_before = old_prefix@;
            stack.push(old_prefix);
            prefix = e.filepath.clone();
            proof {
                assert(stack.deep_view() =~~= sd_before.push(pf_before));
                assert(stack.deep_view() == step.1);
                assert(prefix@ == step.2);
            }
        } else {
            proof {
                assert(stack.deep_view() == step.1);
                assert(prefix@ == step.2);
            }
        }
        proof {
            assert(rows_view(out@) =~~= rows0.push(step.0));
            assert(spec_rows_from(ev, i as int, st0, pf0) == seq![step.0] + spec_rows_from(
                ev,
                i + 1,
                step.1,
                step.2,
            ));
            assert(rows0 + (seq![step.0] + spec_rows_from(ev, i + 1, step.1, step.2)) =~= (
            rows0.push(step.0)) + spec_rows_from(ev, i + 1, step.1, step.2));
        }
    }
    out
}

/// Whether any execute bit is set in the mode.
pub fn is_executable_mode(mode: u32) -> (r: bool)
    ensures
        r == (mode & 0o111 != 0),
{
    mode & 0o111 != 0
}

/// The payload bytes a manifest announces, summed without overflow.
pub open spec fn spec_total_size(es: Seq<EntryV>) -> int
    decreases es.len(),
{
    if es.len() == 0 {
        0
    } else {
        spec_total_size(es.drop_last()) + es.last().size
    }
}

/// The total announced size of a manifest, as the info views print it.
pub fn total_size(filelist: &Vec<MeowZipEntry>) -> (r: u128)
    ensures
        r == spec_total_size(entries_view(filelist@)),
{
    let ghost ev = entries_view(filelist@);
    let mut acc: u128 = 0;
    let n = filelist.len();
    proof {
        assert(ev.take(0) =~= Seq::<EntryV>::empty());
        lemma_total_size_bound(ev, 0);
    }
    for i in 0..n
        invariant
            n == filelist@.len(),
            ev == entries_view(filelist@),
            acc == spec_total_size(ev.take(i as int)),
            acc <= i * (u64::MAX as int),
        decreases n - i,
    {
        proof {
            assert(ev.take(i as int).push(ev[i as int]) =~= ev.take(i + 1));
            assert(ev.take(i + 1).drop_last() =~= ev.take(i as int));
            assert((i + 1) * (u64::MAX as int) == i * (u64::MAX as int) + u64::MAX) by (
            nonlinear_arith);
            assert(i + 1 <= n);
            assert(n * (u64::MAX as int) < u128::MAX) by (nonlinear_arith)
                requires
                    n <= usize::MAX,
            ;
            assert((i + 1) * (u64::MAX as int) <= n * (u64::MAX as int)) by (nonlinear_arith)
                requires
                    0 <= i,
                    i + 1 <= n,
            ;
        }
        acc = acc + (filelist[i].size as u128);
    }
    proof {
        assert(ev.take(n as int) =~= ev);
    }
    acc
}

proof fn lemma_total_size_bound(es: Seq<EntryV>, i: int)
    requires
        0 <= i <= es.len(),
    ensures
        spec_total_size(es.take(i)) >= 0,
    decreases i,
{
    if i > 0 {
        assert(es.take(i).drop_last() =~= es.take(i - 1));
        lemma_total_size_bound(es, i - 1);
    }
}

} // verus!
