//! Sets of strings held as vectors in ascending order, as ordered sets keep
//! them.
use vstd::prelude::*;

use crate::text::{lemma_lex_order, lex_lt, str_is, text_lt};

verus! {

/// The views of a list of strings.
pub open spec fn strs(v: Seq<String>) -> Seq<Seq<char>> {
    Seq::new(v.len(), |i: int| v[i]@)
}

/// Strictly ascending (so without repeats).
pub open spec fn ascending(s: Seq<Seq<char>>) -> bool {
    forall|i: int, j: int| 0 <= i < j < s.len() ==> lex_lt(#[trigger] s[i], #[trigger] s[j])
}

/// Number of elements of `s` that sort before `x`.
pub open spec fn lt_count(s: Seq<Seq<char>>, x: Seq<char>) -> nat
    decreases s.len(),
{
    if s.len() == 0 {
        0
    } else {
        lt_count(s.drop_last(), x) + if lex_lt(s.last(), x) {
            1nat
        } else {
            0nat
        }
    }
}

/// Inserting into an ordered set.
pub open spec fn set_insert(s: Seq<Seq<char>>, x: Seq<char>) -> Seq<Seq<char>> {
    if s.contains(x) {
        s
    } else {
        s.insert(lt_count(s, x) as int, x)
    }
}

/// Inserting each of `xs` in turn.
pub open spec fn set_extend(s: Seq<Seq<char>>, xs: Seq<Seq<char>>) -> Seq<Seq<char>> {
    xs.fold_left(s, |acc: Seq<Seq<char>>, x: Seq<char>| set_insert(acc, x))
}

pub proof fn lemma_lt_count_split(s: Seq<Seq<char>>, x: Seq<char>, p: int)
    requires
        0 <= p <= s.len(),
        forall|i: int| 0 <= i < p ==> lex_lt(#[trigger] s[i], x),
        forall|i: int| p <= i < s.len() ==> !lex_lt(#[trigger] s[i], x),
    ensures
        lt_count(s, x) == p,
    decreases s.len(),
{
    if s.len() > 0 {
        if p == s.len() {
            lemma_lt_count_split(s.drop_last(), x, p - 1);
        } else {
            lemma_lt_count_split(s.drop_last(), x, p);
        }
    }
}

/// Inserts `x` into the ordered set `v`.
pub fn set_add(v: &mut Vec<String>, x: String)
    requires
        ascending(strs(old(v)@)),
    ensures
        ascending(strs(final(v)@)),
        strs(final(v)@) == set_insert(strs(old(v)@), x@),
{
    let ghost s = strs(v@);
    let mut p: usize = 0;
    proof {
        lemma_lex_order();
    }
    while p < v.len() && text_lt(v[p].as_str(), x.as_str())
        invariant
            p <= v@.len(),
            s == strs(v@),
            ascending(s),
            forall|i: int| 0 <= i < p ==> lex_lt(#[trigger] s[i], x@),
        decreases v@.len() - p,
    {
        assert(s[p as int] == v@[p as int]@);
        p = p + 1;
    }
    proof {
        lemma_lex_order();
        assert forall|i: int| p <= i < s.len() implies !lex_lt(#[trigger] s[i], x@) by {
            if i > p {
                assert(lex_lt(s[p as int], s[i]));
            }
        }
        lemma_lt_count_split(s, x@, p as int);
    }
    if p < v.len() && str_is(v[p].as_str(), x.as_str()) {
        assert(s[p as int] == x@);
        assert(s.contains(x@));
        return;
    }
    proof {
        if s.contains(x@) {
            let k = choose|k: int| 0 <= k < s.len() && s[k] == x@;
            if k < p {
                assert(lex_lt(s[k], x@));
            } else if k > p {
                assert(!lex_lt(s[p as int], x@));
                assert(lex_lt(s[p as int], s[k]));
                assert(s[p as int] != x@);
            }
        }
    }
    let ghost xv = x@;
    v.insert(p, x);
    let ghost t = strs(v@);
    assert(t =~= s.insert(p as int, xv));
    proof {
        assert forall|i: int, j: int| 0 <= i < j < t.len() implies lex_lt(#[trigger] t[i], #[trigger] t[j]) by {
            if j < p {
            } else if j == p {
                assert(t[i] == s[i]);
            } else if i == p {
                assert(t[j] == s[j - 1]);
                if j - 1 == p {
                    assert(s[p as int] != xv);
                } else {
                    assert(lex_lt(s[p as int], s[j - 1]));
                    assert(s[p as int] != xv);
                }
            } else if i < p {
                assert(t[j] == s[j - 1]);
                assert(lex_lt(s[i], xv));
                if j - 1 >= p {
                    assert(!lex_lt(s[j - 1], xv));
                    assert(s[j - 1] != xv);
                }
            } else {
                assert(t[i] == s[i - 1]);
                assert(t[j] == s[j - 1]);
            }
        }
    }
}

/// Inserts each of `xs` in turn.
pub fn set_add_all(v: &mut Vec<String>, xs: &Vec<String>)
    requires
        ascending(strs(old(v)@)),
    ensures
        ascending(strs(final(v)@)),
        strs(final(v)@) == set_extend(strs(old(v)@), strs(xs@)),
{
    let ghost s0 = strs(v@);
    let mut i: usize = 0;
    assert(strs(xs@).take(0) =~= Seq::<Seq<char>>::empty());
    while i < xs.len()
        invariant
            i <= xs@.len(),
            ascending(strs(v@)),
            strs(v@) == set_extend(s0, strs(xs@).take(i as int)),
        decreases xs@.len() - i,
    {
        assert(strs(xs@).take(i + 1).drop_last() =~= strs(xs@).take(i as int));
        set_add(v, xs[i].clone());
        i = i + 1;
    }
    assert(strs(xs@).take(i as int) =~= strs(xs@));
}

/// Whether the ordered set `v` holds `x`.
pub fn set_contains(v: &Vec<String>, x: &str) -> (r: bool)
    ensures
        r == strs(v@).contains(x@),
{
    let mut i: usize = 0;
    while i < v.len()
        invariant
            i <= v@.len(),
            forall|k: int| 0 <= k < i ==> v@[k]@ != x@,
        decreases v@.len() - i,
    {
        if str_is(v[i].as_str(), x) {
            assert(strs(v@)[i as int] == x@);
            return true;
        }
        i = i + 1;
    }
    proof {
        if strs(v@).contains(x@) {
            let k = choose|k: int| 0 <= k < strs(v@).len() && strs(v@)[k] == x@;
            assert(v@[k]@ == x@);
        }
    }
    false
}

/// Whether two lists of strings share an element.
pub open spec fn share_element(a: Seq<Seq<char>>, b: Seq<Seq<char>>) -> bool {
    exists|i: int| 0 <= i < a.len() && b.contains(#[trigger] a[i])
}

pub fn sets_intersect(a: &Vec<String>, b: &Vec<String>) -> (r: bool)
    ensures
        r == share_element(strs(a@), strs(b@)),
{
    let mut i: usize = 0;
    while i < a.len()
        invariant
            i <= a@.len(),
            forall|k: int| 0 <= k < i ==> !strs(b@).contains(#[trigger] strs(a@)[k]),
        decreases a@.len() - i,
    {
        if set_contains(b, a[i].as_str()) {
            assert(strs(a@)[i as int] == a@[i as int]@);
            return true;
        }
        i = i + 1;
    }
    false
}

} // verus!
