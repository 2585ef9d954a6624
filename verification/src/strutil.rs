//! String helpers shared by the archive header codec and the resolver:
//! whitespace trimming, the comma-separated dependency list, and decimal
//! rendering of release numbers.

use vstd::prelude::*;

verus! {

// ---------------------------------------------------------------------------
// Specification
// ---------------------------------------------------------------------------

pub open spec fn is_space(c: char) -> bool {
    c == ' ' || c == '\t' || c == '\n' || c == '\r'
}

pub open spec fn trim_front(s: Seq<char>) -> Seq<char>
    decreases s.len(),
{
    if s.len() > 0 && is_space(s[0]) {
        trim_front(s.drop_first())
    } else {
        s
    }
}

pub open spec fn trim_back(s: Seq<char>) -> Seq<char>
    decreases s.len(),
{
    if s.len() > 0 && is_space(s.last()) {
        trim_back(s.drop_last())
    } else {
        s
    }
}

/// The string with leading and trailing whitespace removed.
pub open spec fn trim_chars(s: Seq<char>) -> Seq<char> {
    trim_back(trim_front(s))
}

/// Splitting on commas, accumulating the current piece in `cur`.
pub open spec fn split_acc(s: Seq<char>, cur: Seq<char>) -> Seq<Seq<char>>
    decreases s.len(),
{
    if s.len() == 0 {
        seq![cur]
    } else if s[0] == ',' {
        seq![cur] + split_acc(s.drop_first(), Seq::empty())
    } else {
        split_acc(s.drop_first(), cur.push(s[0]))
    }
}

/// How a stored dependency string becomes a list of names: the empty
/// string is no dependency at all; otherwise split on commas and trim
/// each piece.
pub open spec fn parse_depends_chars(s: Seq<char>) -> Seq<Seq<char>> {
    if s.len() == 0 {
        Seq::empty()
    } else {
        split_acc(s, Seq::empty()).map_values(|p: Seq<char>| trim_chars(p))
    }
}

/// The comma-joined form of a dependency list.
pub open spec fn join_commas(names: Seq<Seq<char>>) -> Seq<char>
    decreases names.len(),
{
    if names.len() == 0 {
        Seq::empty()
    } else if names.len() == 1 {
        names[0]
    } else {
        names[0] + seq![','] + join_commas(names.drop_first())
    }
}

/// A dependency name that survives the comma-joined round trip: nonempty,
/// holds no comma, and neither starts nor ends with whitespace.
pub open spec fn wf_dep_name(s: Seq<char>) -> bool {
    &&& s.len() > 0
    &&& forall|i: int| 0 <= i < s.len() ==> s[i] != ','
    &&& !is_space(s[0])
    &&& !is_space(s.last())
}

pub open spec fn comma_free(s: Seq<char>) -> bool {
    forall|i: int| 0 <= i < s.len() ==> s[i] != ','
}

pub open spec fn digit_char(d: nat) -> char
    recommends
        d < 10,
{
    ((('0' as u8) + d) as u8) as char
}

/// The decimal digits of `n`, most significant first.
pub open spec fn dec_digits(n: nat) -> Seq<char>
    decreases n,
{
    if n < 10 {
        seq![digit_char(n)]
    } else {
        dec_digits(n / 10).push(digit_char(n % 10))
    }
}

// ---------------------------------------------------------------------------
// Trusted bridges to std
// ---------------------------------------------------------------------------

/// Relies on `String::push`: appends exactly one character.
#[verifier::external_body]
pub fn push_char(s: &mut String, c: char)
    ensures
        final(s)@ == old(s)@ + seq![c],
{
    s.push(c);
}

/// Relies on `String::from_utf8`: succeeds exactly on valid UTF-8 input
/// and then holds the decoded characters of those bytes.
#[verifier::external_body]
pub fn string_from_utf8(v: Vec<u8>) -> (r: Option<String>)
    ensures
        r matches Some(s) ==> vstd::utf8::valid_utf8(v@) && s@ == vstd::utf8::decode_utf8(v@),
        r is None ==> !vstd::utf8::valid_utf8(v@),
{
    String::from_utf8(v).ok()
}

// ---------------------------------------------------------------------------
// Lemmas about trimming
// ---------------------------------------------------------------------------

proof fn lemma_trim_front_skip(s: Seq<char>, i: int)
    requires
        0 <= i <= s.len(),
        forall|k: int| 0 <= k < i ==> is_space(s[k]),
        i < s.len() ==> !is_space(s[i]),
    ensures
        trim_front(s) == s.skip(i),
    decreases i,
{
    if i == 0 {
        assert(s.skip(0) =~= s);
    } else {
        assert(is_space(s[0]));
        assert(s.drop_first() =~= s.skip(1));
        lemma_trim_front_skip(s.skip(1), i - 1);
        assert(s.skip(1).skip(i - 1) =~= s.skip(i));
    }
}

proof fn lemma_trim_back_take(s: Seq<char>, j: int)
    requires
        0 <= j <= s.len(),
        forall|k: int| j <= k < s.len() ==> is_space(s[k]),
        j > 0 ==> !is_space(s[j - 1]),
    ensures
        trim_back(s) == s.take(j),
    decreases s.len() - j,
{
    if j == s.len() {
        assert(s.take(j) =~= s);
    } else {
        assert(is_space(s.last()));
        assert(s.drop_last() =~= s.take(s.len() - 1));
        lemma_trim_back_take(s.take(s.len() - 1), j);
        assert(s.take(s.len() - 1).take(j) =~= s.take(j));
    }
}

/// A string with no whitespace at either end is its own trim.
pub proof fn lemma_trim_wf(s: Seq<char>)
    requires
        s.len() > 0 ==> !is_space(s[0]) && !is_space(s.last()),
    ensures
        trim_chars(s) == s,
{
}

// ---------------------------------------------------------------------------
// Lemmas about splitting and joining
// ---------------------------------------------------------------------------

proof fn lemma_split_acc_nocomma(s: Seq<char>, cur: Seq<char>)
    requires
        comma_free(s),
    ensures
        split_acc(s, cur) == seq![cur + s],
    decreases s.len(),
{
    if s.len() == 0 {
        assert(cur + s =~= cur);
    } else {
        assert(comma_free(s.drop_first()));
        lemma_split_acc_nocomma(s.drop_first(), cur.push(s[0]));
        assert(cur.push(s[0]) + s.drop_first() =~= cur + s);
    }
}

proof fn lemma_split_acc_comma(s1: Seq<char>, s2: Seq<char>, cur: Seq<char>)
    requires
        comma_free(s1),
    ensures
        split_acc(s1 + seq![','] + s2, cur) == seq![cur + s1] + split_acc(s2, Seq::empty()),
    decreases s1.len(),
{
    let s = s1 + seq![','] + s2;
    if s1.len() == 0 {
        assert(s[0] == ',');
        assert(s.drop_first() =~= s2);
        assert(cur + s1 =~= cur);
    } else {
        assert(s[0] == s1[0]);
        assert(s[0] != ',');
        assert(s.drop_first() =~= s1.drop_first() + seq![','] + s2);
        assert(comma_free(s1.drop_first()));
        lemma_split_acc_comma(s1.drop_first(), s2, cur.push(s1[0]));
        assert(cur.push(s1[0]) + s1.drop_first() =~= cur + s1);
    }
}

proof fn lemma_split_join_raw(names: Seq<Seq<char>>)
    requires
        names.len() >= 1,
        forall|i: int| 0 <= i < names.len() ==> comma_free(#[trigger] names[i]),
    ensures
        split_acc(join_commas(names), Seq::empty()) == names,
    decreases names.len(),
{
    if names.len() == 1 {
        lemma_split_acc_nocomma(names[0], Seq::empty());
        assert(Seq::<char>::empty() + names[0] =~= names[0]);
        assert(seq![names[0]] =~= names);
    } else {
        lemma_split_acc_comma(names[0], join_commas(names.drop_first()), Seq::empty());
        lemma_split_join_raw(names.drop_first());
        assert(Seq::<char>::empty() + names[0] =~= names[0]);
        assert(seq![names[0]] + names.drop_first() =~= names);
    }
}

/// Joining well-formed dependency names with commas and parsing the
/// result back yields the original list.
pub proof fn lemma_depends_round_trip(names: Seq<Seq<char>>)
    requires
        forall|i: int| 0 <= i < names.len() ==> wf_dep_name(#[trigger] names[i]),
    ensures
        parse_depends_chars(join_commas(names)) == names,
{
    if names.len() == 0 {
    } else {
        assert(join_commas(names).len() > 0) by {
            if names.len() == 1 {
                assert(join_commas(names) == names[0]);
            } else {
                assert(join_commas(names)[0] == names[0][0]);
            }
        }
        lemma_split_join_raw(names);
        let mapped = names.map_values(|p: Seq<char>| trim_chars(p));
        assert forall|i: int| 0 <= i < names.len() implies mapped[i] == names[i] by {
            lemma_trim_wf(names[i]);
        }
        assert(mapped =~= names);
    }
}

proof fn lemma_join_push(names: Seq<Seq<char>>, x: Seq<char>)
    ensures
        names.len() == 0 ==> join_commas(names.push(x)) == x,
        names.len() > 0 ==> join_commas(names.push(x)) == join_commas(names) + seq![','] + x,
    decreases names.len(),
{
    if names.len() == 0 {
        assert(names.push(x)[0] == x);
        assert(join_commas(names.push(x)) == x);
    } else if names.len() == 1 {
        let p = names.push(x);
        assert(p.len() == 2);
        assert(p[0] == names[0]);
        assert(p.drop_first() =~= seq![x]);
        assert(join_commas(seq![x]) == x);
    } else {
        let p = names.push(x);
        assert(p.drop_first() =~= names.drop_first().push(x));
        lemma_join_push(names.drop_first(), x);
        assert(join_commas(p) == names[0] + seq![','] + (join_commas(names.drop_first())
            + seq![','] + x));
        assert(names[0] + seq![','] + (join_commas(names.drop_first()) + seq![','] + x) =~= (
        names[0] + seq![','] + join_commas(names.drop_first())) + seq![','] + x);
    }
}

// ---------------------------------------------------------------------------
// Executable trimming, splitting, joining
// ---------------------------------------------------------------------------

pub fn char_is_space(c: char) -> (r: bool)
    ensures
        r == is_space(c),
{
    c == ' ' || c == '\t' || c == '\n' || c == '\r'
}

/// The argument without leading and trailing whitespace.
pub fn trim_str(s: &str) -> (r: String)
    ensures
        r@ == trim_chars(s@),
{
    let n: usize = s.unicode_len();
    let mut i: usize = 0;
    while i < n && char_is_space(s.get_char(i))
        invariant
            0 <= i <= n,
            n == s@.len(),
            forall|k: int| 0 <= k < i ==> is_space(s@[k]),
        decreases n - i,
    {
        i = i + 1;
    }
    let mut j: usize = n;
    while j > i && char_is_space(s.get_char(j - 1))
        invariant
            i <= j <= n,
            n == s@.len(),
            forall|k: int| j <= k < n ==> is_space(s@[k]),
        decreases j,
    {
        j = j - 1;
    }
    proof {
        lemma_trim_front_skip(s@, i as int);
        if j == i {
            lemma_trim_back_take(s@.skip(i as int), 0);
        } else {
            assert(!is_space(s@[j - 1]));
            assert(s@.skip(i as int)[j - 1 - i] == s@[j - 1]);
            lemma_trim_back_take(s@.skip(i as int), j - i);
        }
        assert(s@.skip(i as int).take(j - i) =~= s@.subrange(i as int, j as int));
    }
    s.substring_char(i, j).to_owned()
}

/// Splits a stored dependency string into trimmed names.
pub fn split_depends(s: &str) -> (r: Vec<String>)
    ensures
        r.deep_view() == parse_depends_chars(s@),
{
    let n: usize = s.unicode_len();
    let mut out: Vec<String> = Vec::new();
    if n == 0 {
        assert(out.deep_view() =~= parse_depends_chars(s@));
        return out;
    }
    let ghost mut raw: Seq<Seq<char>> = Seq::empty();
    let mut start: usize = 0;
    let mut i: usize = 0;
    proof {
        assert(s@.skip(0) =~= s@);
        assert(s@.subrange(0, 0) =~= Seq::<char>::empty());
        assert(Seq::<Seq<char>>::empty() + split_acc(s@, Seq::empty()) =~= split_acc(
            s@,
            Seq::empty(),
        ));
    }
    while i < n
        invariant
            0 <= start <= i <= n,
            n == s@.len(),
            split_acc(s@, Seq::empty()) == raw + split_acc(
                s@.skip(i as int),
                s@.subrange(start as int, i as int),
            ),
            out@.len() == raw.len(),
            forall|k: int| 0 <= k < raw.len() ==> #[trigger] out@[k]@ == trim_chars(raw[k]),
        decreases n - i,
    {
        let ghost cur = s@.subrange(start as int, i as int);
        proof {
            assert(s@.skip(i as int)[0] == s@[i as int]);
            assert(s@.skip(i as int).drop_first() =~= s@.skip(i as int + 1));
        }
        let c = s.get_char(i);
        if c == ',' {
            let piece = trim_str(s.substring_char(start, i));
            proof {
                assert(split_acc(s@.skip(i as int), cur) == seq![cur] + split_acc(
                    s@.skip(i as int + 1),
                    Seq::empty(),
                ));
                assert(raw + (seq![cur] + split_acc(s@.skip(i as int + 1), Seq::empty())) =~= (raw
                    + seq![cur]) + split_acc(s@.skip(i as int + 1), Seq::empty()));
                assert(s@.subrange(i as int + 1, i as int + 1) =~= Seq::<char>::empty());
            }
            out.push(piece);
            proof {
                raw = raw + seq![cur];
            }
            start = i + 1;
        } else {
            proof {
                assert(split_acc(s@.skip(i as int), cur) == split_acc(
                    s@.skip(i as int + 1),
                    cur.push(s@[i as int]),
                ));
                assert(cur.push(s@[i as int]) =~= s@.subrange(start as int, i as int + 1));
            }
        }
        i = i + 1;
    }
    let ghost cur = s@.subrange(start as int, n as int);
    proof {
        assert(split_acc(s@.skip(n as int), cur) == seq![cur]);
    }
    let piece = trim_str(s.substring_char(start, n));
    out.push(piece);
    proof {
        raw = raw + seq![cur];
        assert(raw =~= split_acc(s@, Seq::empty()));
        let mapped = raw.map_values(|p: Seq<char>| trim_chars(p));
        assert forall|k: int| 0 <= k < raw.len() implies #[trigger] out.deep_view()[k]
            == mapped[k] by {
            assert(out@[k]@ == trim_chars(raw[k]));
        }
        assert(out.deep_view() =~~= mapped);
    }
    out
}

/// Joins dependency names with commas, as stored in the archive header.
pub fn join_depends(names: &Vec<String>) -> (r: String)
    ensures
        r@ == join_commas(names.deep_view()),
{
    let mut out = String::new();
    let n = names.len();
    for i in 0..n
        invariant
            n == names@.len(),
            out@ == join_commas(names.deep_view().take(i as int)),
        decreases n - i,
    {
        if i > 0 {
            push_char(&mut out, ',');
        }
        let mut out2 = out;
        out2.append(names[i].as_str());
        out = out2;
        proof {
            let dv = names.deep_view();
            assert(dv.take(i as int).push(dv[i as int]) =~= dv.take(i as int + 1));
            lemma_join_push(dv.take(i as int), dv[i as int]);
        }
    }
    proof {
        assert(names.deep_view().take(n as int) =~= names.deep_view());
    }
    out
}

// ---------------------------------------------------------------------------
// Decimal rendering
// ---------------------------------------------------------------------------

/// The decimal form of `n`, as in package full names.
pub fn u64_to_dec(n: u64) -> (r: String)
    ensures
        r@ == dec_digits(n as nat),
    decreases n,
{
    let d: u8 = (n % 10) as u8;
    let c: char = (48 + d) as char;
    if n < 10 {
        let mut s = String::new();
        push_char(&mut s, c);
        proof {
            assert(s@ =~= seq![digit_char(n as nat)]);
        }
        s
    } else {
        proof {
            assert(n / 10 < n && n / 10 >= 1) by (nonlinear_arith)
                requires
                    n >= 10,
            ;
        }
        let mut s = u64_to_dec(n / 10);
        push_char(&mut s, c);
        proof {
            assert(s@ =~= dec_digits((n / 10) as nat).push(digit_char((n % 10) as nat)));
            assert((n as nat) / 10 == (n / 10) as nat);
            assert((n as nat) % 10 == (n % 10) as nat);
        }
        s
    }
}

} // verus!
