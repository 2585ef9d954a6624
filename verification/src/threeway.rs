//! The three-way merge for regular files on upgrade: compare what was
//! last installed, what is on disk, and what is incoming, and decide
//! whether to discard the payload, overwrite the file, or land the new
//! content beside it.

use vstd::prelude::*;

use crate::strutil::{dec_digits, push_char, u64_to_dec};

verus! {

/// What to do with an incoming regular file's payload.
#[derive(Clone, Copy, Debug, PartialEq, Eq, Structural)]
pub enum MergeDecision {
    /// Consume the payload without writing: the file is already right.
    Discard,
    /// Write the payload over the destination.
    Overwrite,
    /// Write the payload to a sidecar path beside the destination.
    Sidecar,
}

/// The three-way decision over the last-installed checksum `org`, the
/// on-disk checksum `cur` (zero when absent), and the incoming checksum
/// `incoming`: a pure function of the three values.
pub fn three_way(org: u64, cur: u64, incoming: u64) -> (d: MergeDecision)
    ensures
        d == MergeDecision::Discard <==> ((org == cur && cur == incoming) || (org == incoming
            && cur != incoming) || (org != cur && cur == incoming)),
        d == MergeDecision::Overwrite <==> (org == cur && cur != incoming),
        d == MergeDecision::Sidecar <==> (org != cur && cur != incoming && org != incoming),
{
    if org == cur && cur == incoming {
        MergeDecision::Discard
    } else if org == cur {
        MergeDecision::Overwrite
    } else if org == incoming && cur != incoming {
        MergeDecision::Discard
    } else if cur == incoming {
        MergeDecision::Discard
    } else {
        MergeDecision::Sidecar
    }
}

/// The sidecar suffix, as characters.
pub open spec fn pacnew_suffix() -> Seq<char> {
    seq!['.', 'p', 'a', 'c', 'n', 'e', 'w']
}

/// The sidecar path for the n-th attempt: `.pacnew` first, then
/// `.pacnew.2`, `.pacnew.3`, and so on.
pub open spec fn spec_sidecar(dest: Seq<char>, n: nat) -> Seq<char> {
    if n <= 1 {
        dest + pacnew_suffix()
    } else {
        dest + pacnew_suffix() + seq!['.'] + dec_digits(n)
    }
}

/// Builds the n-th candidate sidecar path for a destination; the caller
/// walks `attempt` upward until the path is free.
pub fn sidecar_path(dest: &str, attempt: u64) -> (r: String)
    requires
        attempt >= 1,
    ensures
        r@ == spec_sidecar(dest@, attempt as nat),
{
    let mut out = dest.to_owned();
    out.append(".pacnew");
    proof {
        reveal_strlit(".pacnew");
        assert(".pacnew"@ =~= pacnew_suffix());
    }
    if attempt >= 2 {
        push_char(&mut out, '.');
        let digits = u64_to_dec(attempt);
        out.append(digits.as_str());
        proof {
            assert(out@ =~= spec_sidecar(dest@, attempt as nat));
        }
    }
    out
}

} // verus!
