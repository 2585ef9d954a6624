//! Column layout for name listings: items padded to one column width,
//! with a line break after each full row.

use vstd::prelude::*;
use vstd::string::StringSliceAdditionalSpecFns;
use vstd::utf8::encode_utf8;

use crate::strutil::push_char;

verus! {

/// The byte width of an item, as the terminal column accounting uses.
pub open spec fn blen(s: Seq<char>) -> nat {
    encode_utf8(s).len()
}

/// One more than the widest item: the column width.
pub open spec fn col_width(items: Seq<Seq<char>>) -> nat
    decreases items.len(),
{
    if items.len() == 0 {
        0
    } else {
        let rest = col_width(items.drop_last());
        let w = blen(items.last()) + 1;
        if w > rest {
            w
        } else {
            rest
        }
    }
}

pub open spec fn spaces(n: nat) -> Seq<char> {
    Seq::new(n, |i: int| ' ')
}

/// The layout from item `i` on: the item, padding to the column width,
/// and a newline after every `cols`-th column.
pub open spec fn col_from(items: Seq<Seq<char>>, cw: nat, cols: nat, i: int) -> Seq<char>
    recommends
        cols >= 1,
    decreases items.len() - i,
{
    if i < 0 || i >= items.len() {
        Seq::empty()
    } else {
        let row = items[i] + spaces((cw - blen(items[i])) as nat) + (if i % (cols as int) == (
        cols - 1) as int {
            seq!['\n']
        } else {
            Seq::empty()
        });
        row + col_from(items, cw, cols, i + 1)
    }
}

/// The whole columned layout of the items within a terminal width.
pub open spec fn spec_columned(items: Seq<Seq<char>>, max_width: nat) -> Seq<char> {
    if items.len() == 0 {
        Seq::empty()
    } else {
        col_from(items, col_width(items), max_width / col_width(items), 0)
    }
}

/// Lays the items out in columns within `max_width`. The width must
/// admit at least one column.
pub fn write(items: &Vec<String>, max_width: usize) -> (r: String)
    requires
        items@.len() > 0 ==> col_width(items.deep_view()) <= max_width,
    ensures
        r@ == spec_columned(items.deep_view(), max_width as nat),
{
    let ghost iv = items.deep_view();
    let n = items.len();
    let mut cw: usize = 0;
    proof {
        assert(iv.take(0) =~= Seq::<Seq<char>>::empty());
    }
    for i in 0..n
        invariant
            n == items@.len(),
            iv == items.deep_view(),
            cw == col_width(iv.take(i as int)),
            i > 0 ==> cw >= 1,
            n > 0 ==> col_width(iv) <= max_width,
        decreases n - i,
    {
        proof {
            assert(iv.take(i as int).push(iv[i as int]) =~= iv.take(i + 1));
            assert(iv.take(i + 1).drop_last() =~= iv.take(i as int));
            lemma_col_width_prefix(iv, i + 1);
        }
        let bl = items[i].as_str().as_bytes().len();
        proof {
            assert(blen(iv[i as int]) == bl);
            lemma_col_width_final(iv, n as int);
        }
        if bl + 1 > cw {
            cw = bl + 1;
        }
    }
    proof {
        assert(iv.take(n as int) =~= iv);
    }
    let mut out = String::new();
    if n == 0 {
        return out;
    }
    let cols = max_width / cw;
    proof {
        lemma_col_width_final(iv, n as int);
        assert(cw <= max_width);
        assert(cols >= 1) by (nonlinear_arith)
            requires
                cw >= 1,
                cw <= max_width,
                cols == max_width / cw,
        ;
        assert(cols as nat == (max_width as nat) / (cw as nat));
    }
    for i in 0..n
        invariant
            n == items@.len(),
            iv == items.deep_view(),
            n > 0,
            cw == col_width(iv),
            cols == (max_width as nat) / (cw as nat),
            cols >= 1,
            forall|k: int| 0 <= k < n ==> blen(#[trigger] iv[k]) + 1 <= cw,
            col_from(iv, cw as nat, cols as nat, 0) == out@ + col_from(
                iv,
                cw as nat,
                cols as nat,
                i as int,
            ),
        decreases n - i,
    {
        let ghost out0 = out@;
        let mut out2 = out;
        out2.append(items[i].as_str());
        let bl = items[i].as_str().as_bytes().len();
        proof {
            assert(blen(iv[i as int]) == bl);
        }
        let pad = cw - bl;
        let ghost padded_base = out2@;
        for k in 0..pad
            invariant
                out2@ == padded_base + spaces(k as nat),
            decreases pad - k,
        {
            push_char(&mut out2, ' ');
            proof {
                assert(spaces(k as nat).push(' ') =~= spaces(k as nat + 1));
                assert(padded_base + spaces(k as nat) + seq![' '] =~= padded_base + spaces(
                    k as nat + 1,
                ));
            }
        }
        if i % cols == cols - 1 {
            push_char(&mut out2, '\n');
        }
        out = out2;
        proof {
            let row = iv[i as int] + spaces((cw - blen(iv[i as int])) as nat) + (if (i as int) % (
            cols as int) == (cols - 1) as int {
                seq!['\n']
            } else {
                Seq::<char>::empty()
            });
            assert((i as int) % (cols as int) == (i % cols) as int);
            assert(out@ =~= out0 + row);
            assert(col_from(iv, cw as nat, cols as nat, i as int) == row + col_from(
                iv,
                cw as nat,
                cols as nat,
                i + 1,
            ));
            assert(out0 + (row + col_from(iv, cw as nat, cols as nat, i + 1)) =~= (out0 + row)
                + col_from(iv, cw as nat, cols as nat, i + 1));
        }
    }
    proof {
        assert(col_from(iv, cw as nat, cols as nat, n as int) =~= Seq::<char>::empty());
        assert(out@ + Seq::<char>::empty() =~= out@);
    }
    out
}

proof fn lemma_col_width_prefix(items: Seq<Seq<char>>, i: int)
    requires
        0 <= i <= items.len(),
    ensures
        col_width(items.take(i)) <= col_width(items),
    decreases items.len() - i,
{
    if i == items.len() {
        assert(items.take(i) =~= items);
    } else {
        assert(items.take(i + 1).drop_last() =~= items.take(i));
        assert(items.take(i + 1).last() == items[i]);
        lemma_col_width_prefix(items, i + 1);
    }
}

proof fn lemma_col_width_final(items: Seq<Seq<char>>, n: int)
    requires
        n == items.len(),
    ensures
        forall|k: int| 0 <= k < n ==> blen(#[trigger] items[k]) + 1 <= col_width(items),
    decreases n,
{
    if n > 0 {
        assert(items.drop_last() =~= items.take(n - 1));
        lemma_col_width_final(items.take(n - 1), n - 1);
        assert forall|k: int| 0 <= k < n implies blen(#[trigger] items[k]) + 1 <= col_width(
            items,
        ) by {
            if k < n - 1 {
                assert(items.take(n - 1)[k] == items[k]);
                assert(col_width(items.take(n - 1)) <= col_width(items));
            }
        }
    }
}

} // verus!
