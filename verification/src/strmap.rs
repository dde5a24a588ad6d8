//! Maps from strings to strings, held as vectors of pairs sorted by key.
//!
//! Iteration over such a vector visits the keys in ascending order, as
//! iteration over an ordered map does. std's ordered map is not used here:
//! with `String` keys its specification in vstd lets nothing be proved of
//! what it holds, while a sorted vector's contents are stated exactly.
use vstd::prelude::*;

use crate::text::{lemma_lex_order, lex_lt, str_is, text_lt};

verus! {

/// The pairs of a vector of string pairs, as character sequences.
pub open spec fn pairs(v: Seq<(String, String)>) -> Seq<(Seq<char>, Seq<char>)> {
    Seq::new(v.len(), |i: int| (v[i].0@, v[i].1@))
}

/// Keys in strictly ascending order (so no key occurs twice).
pub open spec fn sorted(ps: Seq<(Seq<char>, Seq<char>)>) -> bool {
    forall|i: int, j: int| 0 <= i < j < ps.len() ==> lex_lt(#[trigger] ps[i].0, #[trigger] ps[j].0)
}

/// Whether some pair has key `k`.
pub open spec fn has_key(ps: Seq<(Seq<char>, Seq<char>)>, k: Seq<char>) -> bool {
    exists|i: int| 0 <= i < ps.len() && #[trigger] ps[i].0 == k
}

/// A position holding key `k`, where there is one.
pub open spec fn key_pos(ps: Seq<(Seq<char>, Seq<char>)>, k: Seq<char>) -> int {
    choose|i: int| 0 <= i < ps.len() && #[trigger] ps[i].0 == k
}

/// The map that a list of pairs with distinct keys stands for.
pub open spec fn map_of(ps: Seq<(Seq<char>, Seq<char>)>) -> Map<Seq<char>, Seq<char>> {
    Map::new(|k: Seq<char>| has_key(ps, k), |k: Seq<char>| ps[key_pos(ps, k)].1)
}

pub proof fn lemma_sorted_distinct(ps: Seq<(Seq<char>, Seq<char>)>, i: int, j: int)
    requires
        sorted(ps),
        0 <= i < ps.len(),
        0 <= j < ps.len(),
        ps[i].0 == ps[j].0,
    ensures
        i == j,
{
    lemma_lex_order();
    if i < j {
        assert(lex_lt(ps[i].0, ps[j].0));
    } else if j < i {
        assert(lex_lt(ps[j].0, ps[i].0));
    }
}

/// In a sorted list, the map sends each key to the value paired with it.
pub proof fn lemma_map_of_at(ps: Seq<(Seq<char>, Seq<char>)>, i: int)
    requires
        sorted(ps),
        0 <= i < ps.len(),
    ensures
        map_of(ps).contains_key(ps[i].0),
        map_of(ps)[ps[i].0] == ps[i].1,
{
    let k = ps[i].0;
    assert(has_key(ps, k));
    let j = key_pos(ps, k);
    lemma_sorted_distinct(ps, i, j);
}

/// Position of `key` among the pairs of `v`.
pub fn find_key(v: &Vec<(String, String)>, key: &str) -> (r: Option<usize>)
    ensures
        r matches Some(i) ==> i < v@.len() && v@[i as int].0@ == key@,
        r is None ==> !has_key(pairs(v@), key@),
{
    let mut i: usize = 0;
    while i < v.len()
        invariant
            i <= v@.len(),
            forall|j: int| 0 <= j < i ==> v@[j].0@ != key@,
        decreases v@.len() - i,
    {
        if str_is(v[i].0.as_str(), key) {
            return Some(i);
        }
        i = i + 1;
    }
    assert forall|j: int| 0 <= j < pairs(v@).len() implies #[trigger] pairs(v@)[j].0 != key@ by {
        assert(pairs(v@)[j].0 == v@[j].0@);
    }
    None
}

/// Inserts a pair whose key is not yet present, at its place in key order.
pub fn insert_sorted(v: &mut Vec<(String, String)>, key: String, value: String)
    requires
        sorted(pairs(old(v)@)),
        !has_key(pairs(old(v)@), key@),
    ensures
        sorted(pairs(final(v)@)),
        map_of(pairs(final(v)@)) == map_of(pairs(old(v)@)).insert(key@, value@),
        final(v)@.len() == old(v)@.len() + 1,
        exists|p: int|
            0 <= p <= old(v)@.len() && pairs(final(v)@) == pairs(old(v)@).insert(p, (key@, value@)),
{
    let ghost ps = pairs(v@);
    let mut p: usize = 0;
    while p < v.len() && !text_lt(key.as_str(), v[p].0.as_str())
        invariant
            p <= v@.len(),
            ps == pairs(v@),
            forall|j: int| 0 <= j < p ==> lex_lt(#[trigger] ps[j].0, key@),
            sorted(ps),
            !has_key(ps, key@),
        decreases v@.len() - p,
    {
        proof {
            lemma_lex_order();
            assert(ps[p as int].0 == v@[p as int].0@);
            if ps[p as int].0 == key@ {
                assert(has_key(ps, key@));
            }
        }
        p = p + 1;
    }
    let ghost kv = (key@, value@);
    v.insert(p, (key, value));
    let ghost qs = pairs(v@);
    assert(qs =~= ps.insert(p as int, kv));
    proof {
        lemma_lex_order();
        assert forall|i: int, j: int| 0 <= i < j < qs.len() implies lex_lt(
            #[trigger] qs[i].0,
            #[trigger] qs[j].0,
        ) by {
            if j < p {
            } else if j == p {
            } else if i == p {
                assert(qs[j].0 == ps[j - 1].0);
                if p < ps.len() {
                    if j - 1 > p {
                        assert(lex_lt(ps[p as int].0, ps[j - 1].0));
                    }
                }
            } else if i < p {
                assert(lex_lt(ps[i].0, key@));
                assert(qs[j].0 == ps[j - 1].0);
                if j - 1 >= p {
                    assert(lex_lt(key@, ps[p as int].0));
                    if j - 1 > p {
                        assert(lex_lt(ps[p as int].0, ps[j - 1].0));
                    }
                }
            } else {
                assert(qs[i].0 == ps[i - 1].0);
                assert(qs[j].0 == ps[j - 1].0);
            }
        }
        let m0 = map_of(ps);
        let m1 = map_of(qs);
        assert forall|k: Seq<char>| #[trigger] m1.contains_key(k) == m0.insert(
            key@,
            value@,
        ).contains_key(k) by {
            if has_key(qs, k) {
                let i = choose|i: int| 0 <= i < qs.len() && #[trigger] qs[i].0 == k;
                if i < p {
                    assert(ps[i].0 == k);
                } else if i > p {
                    assert(ps[i - 1].0 == k);
                }
            }
            if has_key(ps, k) {
                let i = choose|i: int| 0 <= i < ps.len() && #[trigger] ps[i].0 == k;
                if i < p {
                    assert(qs[i].0 == k);
                } else {
                    assert(qs[i + 1].0 == k);
                }
            }
            if k == key@ {
                assert(qs[p as int].0 == k);
            }
        }
        assert forall|k: Seq<char>| #[trigger] m1.contains_key(k) implies m1[k] == m0.insert(
            key@,
            value@,
        )[k] by {
            let i = choose|i: int| 0 <= i < qs.len() && #[trigger] qs[i].0 == k;
            lemma_map_of_at(qs, i);
            if i < p {
                lemma_map_of_at(ps, i);
            } else if i > p {
                lemma_map_of_at(ps, i - 1);
            }
        }
        assert(m1 =~= m0.insert(key@, value@));
    }
}

} // verus!
