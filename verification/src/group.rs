//! Grouping entries by a key kept in key order, as an ordered map from key to
//! the list of entries does, and stable sorting by a key.
use vstd::prelude::*;

use crate::strset::strs;
use crate::text::{lemma_lex_order, lex_lt, str_is, text_lt};

verus! {

// ---------------------------------------------------------------------------
// Keys made of strings
/// Lists of strings compared element by element, as tuples of strings are
/// ordered.
pub open spec fn keys_lt(a: Seq<Seq<char>>, b: Seq<Seq<char>>) -> bool
    decreases a.len(),
{
    if a.len() == 0 {
        b.len() > 0
    } else if b.len() == 0 {
        false
    } else if a[0] == b[0] {
        keys_lt(a.drop_first(), b.drop_first())
    } else {
        lex_lt(a[0], b[0])
    }
}

pub open spec fn key_views(keys: Seq<Vec<String>>) -> Seq<Seq<Seq<char>>> {
    Seq::new(keys.len(), |i: int| strs(keys[i]@))
}

/// Compares two keys.
pub fn keys_less(a: &Vec<String>, b: &Vec<String>) -> (r: bool)
    ensures
        r == keys_lt(strs(a@), strs(b@)),
{
    let ghost x = strs(a@);
    let ghost y = strs(b@);
    let mut i: usize = 0;
    assert(x.skip(0) =~= x);
    assert(y.skip(0) =~= y);
    while i < a.len() && i < b.len() && str_is(a[i].as_str(), b[i].as_str())
        invariant
            x == strs(a@),
            y == strs(b@),
            i <= a@.len(),
            i <= b@.len(),
            keys_lt(x, y) == keys_lt(x.skip(i as int), y.skip(i as int)),
        decreases a@.len() - i,
    {
        assert(x.skip(i as int).drop_first() =~= x.skip(i + 1));
        assert(y.skip(i as int).drop_first() =~= y.skip(i + 1));
        i = i + 1;
    }
    if i < a.len() && i < b.len() {
        text_lt(a[i].as_str(), b[i].as_str())
    } else {
        i < b.len()
    }
}

/// Whether two keys are equal.
pub fn keys_equal(a: &Vec<String>, b: &Vec<String>) -> (r: bool)
    ensures
        r == (strs(a@) == strs(b@)),
{
    if a.len() != b.len() {
        assert(strs(a@).len() != strs(b@).len());
        return false;
    }
    let mut i: usize = 0;
    while i < a.len()
        invariant
            i <= a@.len() == b@.len(),
            forall|k: int| 0 <= k < i ==> a@[k]@ == #[trigger] b@[k]@,
        decreases a@.len() - i,
    {
        if !str_is(a[i].as_str(), b[i].as_str()) {
            assert(strs(a@)[i as int] != strs(b@)[i as int]);
            return false;
        }
        i = i + 1;
    }
    assert(strs(a@) =~= strs(b@));
    true
}

// ---------------------------------------------------------------------------
// Grouping
/// A key with the positions of the entries that have it, in entry order.
pub struct Group {
    pub key: Seq<Seq<char>>,
    pub members: Seq<usize>,
}

/// First position at or after `i` whose group has the key (the number of
/// groups when there is none).
pub open spec fn key_from(gs: Seq<Group>, key: Seq<Seq<char>>, i: int) -> int
    decreases gs.len() - i,
{
    if i < 0 || i >= gs.len() {
        gs.len() as int
    } else if gs[i].key == key {
        i
    } else {
        key_from(gs, key, i + 1)
    }
}

/// First position at or after `i` whose group's key sorts after `key` (the
/// number of groups when there is none).
pub open spec fn greater_from(gs: Seq<Group>, key: Seq<Seq<char>>, i: int) -> int
    decreases gs.len() - i,
{
    if i < 0 || i >= gs.len() {
        gs.len() as int
    } else if keys_lt(key, gs[i].key) {
        i
    } else {
        greater_from(gs, key, i + 1)
    }
}

/// Adds entry `x` under `key`: to the end of the group with that key, or as a
/// new group placed before the first group whose key sorts after it.
pub open spec fn group_add(gs: Seq<Group>, key: Seq<Seq<char>>, x: usize) -> Seq<Group> {
    let p = key_from(gs, key, 0);
    if p < gs.len() {
        gs.update(p, Group { key: gs[p].key, members: gs[p].members.push(x) })
    } else {
        gs.insert(greater_from(gs, key, 0), Group { key, members: seq![x] })
    }
}

/// The first `n` entries grouped by their keys.
pub open spec fn group_all(keys: Seq<Seq<Seq<char>>>, n: int) -> Seq<Group>
    decreases n,
{
    if n <= 0 {
        Seq::empty()
    } else {
        group_add(group_all(keys, n - 1), keys[n - 1], (n - 1) as usize)
    }
}

/// Number of entries held by the groups.
pub open spec fn total_members(gs: Seq<Group>) -> nat
    decreases gs.len(),
{
    if gs.len() == 0 {
        0
    } else {
        total_members(gs.drop_last()) + gs.last().members.len()
    }
}

pub proof fn lemma_key_from_bounds(gs: Seq<Group>, key: Seq<Seq<char>>, i: int)
    requires
        0 <= i <= gs.len(),
    ensures
        i <= key_from(gs, key, i) <= gs.len(),
        key_from(gs, key, i) < gs.len() ==> gs[key_from(gs, key, i)].key == key,
        key_from(gs, key, i) == gs.len() ==> forall|t: int| i <= t < gs.len() ==> #[trigger] gs[t].key != key,
    decreases gs.len() - i,
{
    if i < gs.len() && gs[i].key != key {
        lemma_key_from_bounds(gs, key, i + 1);
    }
}

pub proof fn lemma_greater_from_bounds(gs: Seq<Group>, key: Seq<Seq<char>>, i: int)
    requires
        0 <= i <= gs.len(),
    ensures
        i <= greater_from(gs, key, i) <= gs.len(),
    decreases gs.len() - i,
{
    if i < gs.len() && !keys_lt(key, gs[i].key) {
        lemma_greater_from_bounds(gs, key, i + 1);
    }
}

proof fn lemma_total_update(gs: Seq<Group>, i: int, g: Group)
    requires
        0 <= i < gs.len(),
    ensures
        total_members(gs.update(i, g)) + gs[i].members.len() == total_members(gs) + g.members.len(),
    decreases gs.len(),
{
    if i == gs.len() - 1 {
        assert(gs.update(i, g).drop_last() =~= gs.drop_last());
    } else {
        lemma_total_update(gs.drop_last(), i, g);
        assert(gs.update(i, g).drop_last() =~= gs.drop_last().update(i, g));
    }
}

proof fn lemma_total_insert(gs: Seq<Group>, i: int, g: Group)
    requires
        0 <= i <= gs.len(),
    ensures
        total_members(gs.insert(i, g)) == total_members(gs) + g.members.len(),
    decreases gs.len(),
{
    if i == gs.len() {
        assert(gs.insert(i, g).drop_last() =~= gs);
    } else {
        lemma_total_insert(gs.drop_last(), i, g);
        assert(gs.insert(i, g).drop_last() =~= gs.drop_last().insert(i, g));
    }
}

/// The groups of the first `n` entries hold each of them once: every group
/// is non-empty, every member is below `n`, and there are `n` members in all.
pub proof fn lemma_group_all(keys: Seq<Seq<Seq<char>>>, n: int)
    requires
        0 <= n <= keys.len(),
        n <= usize::MAX + 1,
    ensures
        total_members(group_all(keys, n)) == n,
        group_all(keys, n).len() <= n,
        forall|g: int| 0 <= g < group_all(keys, n).len() ==> #[trigger] group_all(keys, n)[g].members.len() > 0,
        forall|g: int, m: int|
            0 <= g < group_all(keys, n).len() && 0 <= m < group_all(keys, n)[g].members.len()
                ==> #[trigger] group_all(keys, n)[g].members[m] < n,
    decreases n,
{
    if n > 0 {
        lemma_group_all(keys, n - 1);
        let gs = group_all(keys, n - 1);
        let key = keys[n - 1];
        let x = (n - 1) as usize;
        let p = key_from(gs, key, 0);
        lemma_key_from_bounds(gs, key, 0);
        if p < gs.len() {
            let g = Group { key: gs[p].key, members: gs[p].members.push(x) };
            lemma_total_update(gs, p, g);
            let out = gs.update(p, g);
            assert forall|a: int, m: int| 0 <= a < out.len() && 0 <= m < out[a].members.len() implies
                #[trigger] out[a].members[m] < n by {
                if a != p {
                    assert(out[a] == gs[a]);
                }
            }
        } else {
            let q = greater_from(gs, key, 0);
            lemma_greater_from_bounds(gs, key, 0);
            let g = Group { key, members: seq![x] };
            lemma_total_insert(gs, q, g);
            let out = gs.insert(q, g);
            assert forall|a: int, m: int| 0 <= a < out.len() && 0 <= m < out[a].members.len() implies
                #[trigger] out[a].members[m] < n by {
                if a < q {
                    assert(out[a] == gs[a]);
                } else if a > q {
                    assert(out[a] == gs[a - 1]);
                }
            }
            assert forall|a: int| 0 <= a < out.len() implies #[trigger] out[a].members.len() > 0 by {
                if a < q {
                    assert(out[a] == gs[a]);
                } else if a > q {
                    assert(out[a] == gs[a - 1]);
                }
            }
        }
    }
}

/// Whether some group holds entry `x`.
pub open spec fn in_some_group(gs: Seq<Group>, x: usize) -> bool {
    exists|g: int| 0 <= g < gs.len() && #[trigger] gs[g].members.contains(x)
}

/// Every one of the first `n` entries is a member of some group.
pub proof fn lemma_group_all_complete(keys: Seq<Seq<Seq<char>>>, n: int)
    requires
        0 <= n <= keys.len(),
        n <= usize::MAX + 1,
    ensures
        forall|x: usize| 0 <= x < n ==> #[trigger] in_some_group(group_all(keys, n), x),
    decreases n,
{
    if n > 0 {
        lemma_group_all_complete(keys, n - 1);
        let gs = group_all(keys, n - 1);
        let key = keys[n - 1];
        let x = (n - 1) as usize;
        let p = key_from(gs, key, 0);
        lemma_key_from_bounds(gs, key, 0);
        let out = group_all(keys, n);
        if p < gs.len() {
            assert(out == gs.update(p, Group { key: gs[p].key, members: gs[p].members.push(x) }));
            assert forall|y: usize| 0 <= y < n implies #[trigger] in_some_group(out, y) by {
                if y == n - 1 {
                    assert(out[p].members[gs[p].members.len() as int] == x);
                    assert(out[p].members.contains(y));
                } else {
                    assert(in_some_group(gs, y));
                    let g = choose|g: int| 0 <= g < gs.len() && #[trigger] gs[g].members.contains(y);
                    let m = choose|m: int| 0 <= m < gs[g].members.len() && gs[g].members[m] == y;
                    if g == p {
                        assert(out[g].members[m] == y);
                    } else {
                        assert(out[g] == gs[g]);
                    }
                    assert(out[g].members.contains(y));
                }
            }
        } else {
            let q = greater_from(gs, key, 0);
            lemma_greater_from_bounds(gs, key, 0);
            assert(out == gs.insert(q, Group { key, members: seq![x] }));
            assert forall|y: usize| 0 <= y < n implies #[trigger] in_some_group(out, y) by {
                if y == n - 1 {
                    assert(out[q].members[0] == x);
                    assert(out[q].members.contains(y));
                } else {
                    assert(in_some_group(gs, y));
                    let g = choose|g: int| 0 <= g < gs.len() && #[trigger] gs[g].members.contains(y);
                    if g < q {
                        assert(out[g] == gs[g]);
                        assert(out[g].members.contains(y));
                    } else {
                        assert(out[g + 1] == gs[g]);
                        assert(out[g + 1].members.contains(y));
                    }
                }
            }
        }
    }
}

/// No two groups have the same key.
pub proof fn lemma_group_all_distinct(keys: Seq<Seq<Seq<char>>>, n: int)
    requires
        0 <= n <= keys.len(),
    ensures
        forall|a: int, b: int|
            0 <= a < b < group_all(keys, n).len() ==> #[trigger] group_all(keys, n)[a].key != #[trigger] group_all(
                keys,
                n,
            )[b].key,
    decreases n,
{
    if n > 0 {
        lemma_group_all_distinct(keys, n - 1);
        let gs = group_all(keys, n - 1);
        let key = keys[n - 1];
        let x = (n - 1) as usize;
        let p = key_from(gs, key, 0);
        lemma_key_from_bounds(gs, key, 0);
        if p < gs.len() {
            let out = gs.update(p, Group { key: gs[p].key, members: gs[p].members.push(x) });
            assert forall|a: int, b: int| 0 <= a < b < out.len() implies #[trigger] out[a].key != #[trigger] out[b].key by {
                assert(out[a].key == gs[a].key);
                assert(out[b].key == gs[b].key);
            }
        } else {
            let q = greater_from(gs, key, 0);
            lemma_greater_from_bounds(gs, key, 0);
            let out = gs.insert(q, Group { key, members: seq![x] });
            assert forall|a: int, b: int| 0 <= a < b < out.len() implies #[trigger] out[a].key != #[trigger] out[b].key by {
                if a < q {
                    assert(out[a] == gs[a]);
                } else if a > q {
                    assert(out[a] == gs[a - 1]);
                }
                if b < q {
                    assert(out[b] == gs[b]);
                } else if b > q {
                    assert(out[b] == gs[b - 1]);
                }
            }
        }
    }
}

/// Every entry of a group has the group's key.
pub proof fn lemma_group_all_keys(keys: Seq<Seq<Seq<char>>>, n: int)
    requires
        0 <= n <= keys.len(),
        n <= usize::MAX + 1,
    ensures
        forall|g: int, m: int|
            0 <= g < group_all(keys, n).len() && 0 <= m < group_all(keys, n)[g].members.len()
                ==> keys[#[trigger] group_all(keys, n)[g].members[m] as int] == group_all(keys, n)[g].key,
    decreases n,
{
    if n > 0 {
        lemma_group_all_keys(keys, n - 1);
        lemma_group_all(keys, n - 1);
        let gs = group_all(keys, n - 1);
        let key = keys[n - 1];
        let x = (n - 1) as usize;
        let p = key_from(gs, key, 0);
        lemma_key_from_bounds(gs, key, 0);
        if p < gs.len() {
            let out = gs.update(p, Group { key: gs[p].key, members: gs[p].members.push(x) });
            assert forall|g: int, m: int| 0 <= g < out.len() && 0 <= m < out[g].members.len() implies
                keys[#[trigger] out[g].members[m] as int] == out[g].key by {
                if g != p {
                    assert(out[g] == gs[g]);
                } else if m < gs[p].members.len() {
                    assert(out[g].members[m] == gs[p].members[m]);
                }
            }
        } else {
            let q = greater_from(gs, key, 0);
            lemma_greater_from_bounds(gs, key, 0);
            let out = gs.insert(q, Group { key, members: seq![x] });
            assert forall|g: int, m: int| 0 <= g < out.len() && 0 <= m < out[g].members.len() implies
                keys[#[trigger] out[g].members[m] as int] == out[g].key by {
                if g < q {
                    assert(out[g] == gs[g]);
                } else if g > q {
                    assert(out[g] == gs[g - 1]);
                }
            }
        }
    }
}

/// No group holds more entries than all the groups together.
pub proof fn lemma_total_members_each(gs: Seq<Group>)
    ensures
        forall|g: int| 0 <= g < gs.len() ==> #[trigger] gs[g].members.len() <= total_members(gs),
    decreases gs.len(),
{
    if gs.len() > 0 {
        lemma_total_members_each(gs.drop_last());
        assert forall|g: int| 0 <= g < gs.len() implies #[trigger] gs[g].members.len() <= total_members(gs) by {
            if g < gs.len() - 1 {
                assert(gs[g] == gs.drop_last()[g]);
            }
        }
    }
}

pub open spec fn group_views(keys: Seq<Vec<String>>, members: Seq<Vec<usize>>) -> Seq<Group> {
    Seq::new(keys.len(), |i: int| Group { key: strs(keys[i]@), members: members[i]@ })
}

/// Adds entry `x` under `key` to the groups held as parallel lists of keys
/// and members.
pub fn group_insert(keys: &mut Vec<Vec<String>>, members: &mut Vec<Vec<usize>>, key: Vec<String>, x: usize)
    requires
        old(keys)@.len() == old(members)@.len(),
    ensures
        final(keys)@.len() == final(members)@.len(),
        group_views(final(keys)@, final(members)@) == group_add(
            group_views(old(keys)@, old(members)@),
            strs(key@),
            x,
        ),
{
    let ghost gs = group_views(keys@, members@);
    let ghost m0 = members@;
    let ghost k = strs(key@);
    let n = keys.len();
    let mut i: usize = 0;
    while i < n
        invariant
            n == keys@.len() == members@.len(),
            gs == group_views(keys@, members@),
            m0 == members@,
            gs == group_views(old(keys)@, old(members)@),
            k == strs(key@),
            i <= n,
            key_from(gs, k, 0) == key_from(gs, k, i as int),
        decreases n - i,
    {
        if keys_equal(&keys[i], &key) {
            let mut m = members.remove(i);
            m.push(x);
            let ghost mv = m;
            members.insert(i, m);
            proof {
                assert(gs[i as int].key == k);
                assert(key_from(gs, k, i as int) == i);
                assert(members@ =~= m0.update(i as int, mv));
                assert(group_views(keys@, members@) =~= gs.update(
                    i as int,
                    Group { key: gs[i as int].key, members: gs[i as int].members.push(x) },
                ));
            }
            return;
        }
        i = i + 1;
    }
    assert(key_from(gs, k, n as int) == n);
    let mut j: usize = 0;
    while j < n
        invariant
            n == keys@.len() == members@.len(),
            gs == group_views(keys@, members@),
            k == strs(key@),
            j <= n,
            greater_from(gs, k, 0) == greater_from(gs, k, j as int),
        ensures
            j <= n,
            greater_from(gs, k, 0) == j,
        decreases n - j,
    {
        if keys_less(&key, &keys[j]) {
            break;
        }
        j = j + 1;
    }
    let mut one: Vec<usize> = Vec::new();
    one.push(x);
    keys.insert(j, key);
    members.insert(j, one);
    proof {
        assert(group_views(keys@, members@) =~= gs.insert(j as int, Group { key: k, members: seq![x] }));
    }
}

/// Groups entries by their keys: for each distinct key, in key order, the
/// positions of the entries that have it.
pub fn group_by(entry_keys: &Vec<Vec<String>>) -> (r: (Vec<Vec<String>>, Vec<Vec<usize>>))
    ensures
        r.0@.len() == r.1@.len(),
        group_views(r.0@, r.1@) == group_all(key_views(entry_keys@), entry_keys@.len() as int),
{
    let ghost ks = key_views(entry_keys@);
    let mut keys: Vec<Vec<String>> = Vec::new();
    let mut members: Vec<Vec<usize>> = Vec::new();
    let mut i: usize = 0;
    assert(group_views(keys@, members@) =~= group_all(ks, 0));
    while i < entry_keys.len()
        invariant
            ks == key_views(entry_keys@),
            i <= entry_keys@.len(),
            keys@.len() == members@.len(),
            group_views(keys@, members@) == group_all(ks, i as int),
        decreases entry_keys@.len() - i,
    {
        let key = copy_strings(&entry_keys[i]);
        group_insert(&mut keys, &mut members, key, i);
        i = i + 1;
    }
    (keys, members)
}

/// A copy of a list of strings.
pub fn copy_strings(v: &Vec<String>) -> (r: Vec<String>)
    ensures
        strs(r@) == strs(v@),
        r@.len() == v@.len(),
{
    let mut out: Vec<String> = Vec::new();
    let mut i: usize = 0;
    while i < v.len()
        invariant
            i <= v@.len(),
            out@.len() == i,
            forall|k: int| 0 <= k < i ==> #[trigger] out@[k]@ == v@[k]@,
        decreases v@.len() - i,
    {
        out.push(v[i].clone());
        i = i + 1;
    }
    assert(strs(out@) =~= strs(v@));
    out
}

// ---------------------------------------------------------------------------
// Stable sorting
/// A sort key: two texts and a number, compared in that order.
pub open spec fn sort_key_lt(a: (Seq<char>, Seq<char>, nat), b: (Seq<char>, Seq<char>, nat)) -> bool {
    ||| lex_lt(a.0, b.0)
    ||| a.0 == b.0 && lex_lt(a.1, b.1)
    ||| a.0 == b.0 && a.1 == b.1 && a.2 < b.2
}

/// First position at or after `j` of `order` whose entry's key sorts after
/// `k` (the length of `order` when there is none).
pub open spec fn place_from(
    order: Seq<usize>,
    keys: Seq<(Seq<char>, Seq<char>, nat)>,
    k: (Seq<char>, Seq<char>, nat),
    j: int,
) -> int
    decreases order.len() - j,
{
    if j < 0 || j >= order.len() {
        order.len() as int
    } else if sort_key_lt(k, keys[order[j] as int]) {
        j
    } else {
        place_from(order, keys, k, j + 1)
    }
}

/// Positions of the first `n` entries in a stable sort by key: each entry is
/// placed after every earlier entry whose key does not sort after its own.
pub open spec fn sorted_order(keys: Seq<(Seq<char>, Seq<char>, nat)>, n: int) -> Seq<usize>
    decreases n,
{
    if n <= 0 {
        Seq::empty()
    } else {
        let o = sorted_order(keys, n - 1);
        o.insert(place_from(o, keys, keys[n - 1], 0), (n - 1) as usize)
    }
}

/// The entries of `xs` in the order given by positions.
pub open spec fn arrange<A>(xs: Seq<A>, order: Seq<usize>) -> Seq<A> {
    Seq::new(order.len(), |i: int| xs[order[i] as int])
}

pub open spec fn sort_key_view(k: (String, String, usize)) -> (Seq<char>, Seq<char>, nat) {
    (k.0@, k.1@, k.2 as nat)
}

pub open spec fn sort_key_views(keys: Seq<(String, String, usize)>) -> Seq<(Seq<char>, Seq<char>, nat)> {
    Seq::new(keys.len(), |i: int| sort_key_view(keys[i]))
}

pub proof fn lemma_place_from_bounds(
    order: Seq<usize>,
    keys: Seq<(Seq<char>, Seq<char>, nat)>,
    k: (Seq<char>, Seq<char>, nat),
    j: int,
)
    requires
        0 <= j <= order.len(),
    ensures
        j <= place_from(order, keys, k, j) <= order.len(),
    decreases order.len() - j,
{
    if j < order.len() && !sort_key_lt(k, keys[order[j] as int]) {
        lemma_place_from_bounds(order, keys, k, j + 1);
    }
}

/// The key order is a strict order.
pub proof fn lemma_sort_key_order()
    ensures
        forall|a: (Seq<char>, Seq<char>, nat)| !#[trigger] sort_key_lt(a, a),
        forall|a: (Seq<char>, Seq<char>, nat), b: (Seq<char>, Seq<char>, nat), c: (Seq<char>, Seq<char>, nat)|
            #![trigger sort_key_lt(a, b), sort_key_lt(b, c)]
            sort_key_lt(a, b) && sort_key_lt(b, c) ==> sort_key_lt(a, c),
{
    lemma_lex_order();
}

proof fn lemma_place_from(
    order: Seq<usize>,
    keys: Seq<(Seq<char>, Seq<char>, nat)>,
    k: (Seq<char>, Seq<char>, nat),
    j: int,
)
    requires
        0 <= j <= order.len(),
    ensures
        forall|t: int| j <= t < place_from(order, keys, k, j) ==> !sort_key_lt(k, #[trigger] keys[order[t] as int]),
        place_from(order, keys, k, j) < order.len() ==> sort_key_lt(k, keys[order[place_from(order, keys, k, j)] as int]),
    decreases order.len() - j,
{
    if j < order.len() && !sort_key_lt(k, keys[order[j] as int]) {
        lemma_place_from(order, keys, k, j + 1);
    }
}

/// The stable order sorts: no entry's key sorts before that of an entry
/// placed earlier.
pub proof fn lemma_sorted_order_sorted(keys: Seq<(Seq<char>, Seq<char>, nat)>, n: int)
    requires
        0 <= n <= usize::MAX + 1,
        n <= keys.len(),
    ensures
        forall|i: int, j: int|
            0 <= i < j < n ==> !sort_key_lt(
                keys[#[trigger] sorted_order(keys, n)[j] as int],
                keys[#[trigger] sorted_order(keys, n)[i] as int],
            ),
    decreases n,
{
    if n > 0 {
        lemma_sorted_order_sorted(keys, n - 1);
        lemma_sorted_order_len(keys, n - 1);
        lemma_sort_key_order();
        let o = sorted_order(keys, n - 1);
        let k = keys[n - 1];
        let p = place_from(o, keys, k, 0);
        lemma_place_from_bounds(o, keys, k, 0);
        lemma_place_from(o, keys, k, 0);
        let out = o.insert(p, (n - 1) as usize);
        assert(out == sorted_order(keys, n));
        assert forall|i: int, j: int| 0 <= i < j < n implies !sort_key_lt(
            keys[#[trigger] out[j] as int],
            keys[#[trigger] out[i] as int],
        ) by {
            if j < p {
                assert(out[i] == o[i] && out[j] == o[j]);
            } else if j == p {
                assert(out[i] == o[i]);
                assert(out[j] == (n - 1) as usize);
            } else if i < p {
                assert(out[i] == o[i] && out[j] == o[j - 1]);
            } else if i == p {
                assert(out[i] == (n - 1) as usize);
                assert(out[j] == o[j - 1]);
                assert(sort_key_lt(k, keys[o[p] as int]));
                if p < j - 1 {
                    assert(!sort_key_lt(keys[o[j - 1] as int], keys[o[p] as int]));
                }
            } else {
                assert(out[i] == o[i - 1] && out[j] == o[j - 1]);
            }
        }
    }
}

/// The stable order of `n` entries has `n` positions.
pub proof fn lemma_sorted_order_len(keys: Seq<(Seq<char>, Seq<char>, nat)>, n: int)
    requires
        n >= 0,
    ensures
        sorted_order(keys, n).len() == n,
    decreases n,
{
    if n > 0 {
        lemma_sorted_order_len(keys, n - 1);
        let o = sorted_order(keys, n - 1);
        lemma_place_from_bounds(o, keys, keys[n - 1], 0);
    }
}

/// Every one of the `n` entries has a place in their stable order.
pub proof fn lemma_sorted_order_onto(keys: Seq<(Seq<char>, Seq<char>, nat)>, n: int)
    requires
        0 <= n,
    ensures
        forall|x: usize| 0 <= x < n ==> #[trigger] sorted_order(keys, n).contains(x),
    decreases n,
{
    if n > 0 {
        lemma_sorted_order_onto(keys, n - 1);
        lemma_sorted_order_len(keys, n - 1);
        let o = sorted_order(keys, n - 1);
        let p = place_from(o, keys, keys[n - 1], 0);
        lemma_place_from_bounds(o, keys, keys[n - 1], 0);
        let out = o.insert(p, (n - 1) as usize);
        assert(out == sorted_order(keys, n));
        assert forall|x: usize| 0 <= x < n implies #[trigger] out.contains(x) by {
            if x == n - 1 {
                assert(out[p] == x);
            } else {
                assert(o.contains(x));
                let i = choose|i: int| 0 <= i < o.len() && o[i] == x;
                if i < p {
                    assert(out[i] == x);
                } else {
                    assert(out[i + 1] == x);
                }
            }
        }
    }
}

/// The stable order of `n` entries lists `n` positions, each below `n`, each
/// once.
pub proof fn lemma_sorted_order(keys: Seq<(Seq<char>, Seq<char>, nat)>, n: int)
    requires
        0 <= n <= usize::MAX + 1,
    ensures
        sorted_order(keys, n).len() == n,
        forall|i: int| 0 <= i < n ==> #[trigger] sorted_order(keys, n)[i] < n,
        forall|i: int, j: int|
            0 <= i < j < n ==> #[trigger] sorted_order(keys, n)[i] != #[trigger] sorted_order(keys, n)[j],
    decreases n,
{
    if n > 0 {
        lemma_sorted_order(keys, n - 1);
        let o = sorted_order(keys, n - 1);
        let p = place_from(o, keys, keys[n - 1], 0);
        lemma_place_from_bounds(o, keys, keys[n - 1], 0);
        let out = o.insert(p, (n - 1) as usize);
        assert forall|i: int| 0 <= i < n implies #[trigger] out[i] < n by {
            if i < p {
                assert(out[i] == o[i]);
            } else if i > p {
                assert(out[i] == o[i - 1]);
            }
        }
        assert forall|i: int, j: int| 0 <= i < j < n implies #[trigger] out[i] != #[trigger] out[j] by {
            if i < p {
                assert(out[i] == o[i]);
            } else if i > p {
                assert(out[i] == o[i - 1]);
            }
            if j < p {
                assert(out[j] == o[j]);
            } else if j > p {
                assert(out[j] == o[j - 1]);
            }
        }
    }
}

fn sort_key_less(a: &(String, String, usize), b: &(String, String, usize)) -> (r: bool)
    ensures
        r == sort_key_lt(sort_key_view(*a), sort_key_view(*b)),
{
    if text_lt(a.0.as_str(), b.0.as_str()) {
        true
    } else if !str_is(a.0.as_str(), b.0.as_str()) {
        false
    } else if text_lt(a.1.as_str(), b.1.as_str()) {
        true
    } else if !str_is(a.1.as_str(), b.1.as_str()) {
        false
    } else {
        a.2 < b.2
    }
}

/// Positions of the entries in a stable sort by their keys.
pub fn sort_order(keys: &Vec<(String, String, usize)>) -> (r: Vec<usize>)
    ensures
        r@ == sorted_order(sort_key_views(keys@), keys@.len() as int),
        r@.len() == keys@.len(),
        forall|i: int| 0 <= i < r@.len() ==> #[trigger] r@[i] < keys@.len(),
{
    let ghost ks = sort_key_views(keys@);
    let mut order: Vec<usize> = Vec::new();
    let n = keys.len();
    let mut i: usize = 0;
    while i < n
        invariant
            n == keys@.len(),
            ks == sort_key_views(keys@),
            i <= n,
            order@ == sorted_order(ks, i as int),
        decreases n - i,
    {
        proof {
            lemma_sorted_order(ks, i as int);
        }
        let ghost o = order@;
        let mut j: usize = 0;
        while j < order.len()
            invariant
                n == keys@.len(),
                ks == sort_key_views(keys@),
                i < n,
                o == order@,
                o == sorted_order(ks, i as int),
                forall|t: int| 0 <= t < o.len() ==> #[trigger] o[t] < i,
                j <= o.len(),
                place_from(o, ks, ks[i as int], 0) == place_from(o, ks, ks[i as int], j as int),
            ensures
                o == order@,
                j <= o.len(),
                place_from(o, ks, ks[i as int], 0) == j,
            decreases o.len() - j,
        {
            if sort_key_less(&keys[i], &keys[order[j]]) {
                break;
            }
            j = j + 1;
        }
        order.insert(j, i);
        i = i + 1;
    }
    proof {
        lemma_sorted_order(ks, n as int);
    }
    order
}

/// Values that are sorted by a key of two texts and a number.
pub trait Keyed: Sized {
    spec fn sort_key(&self) -> (Seq<char>, Seq<char>, nat);

    fn key_less(&self, other: &Self) -> (r: bool)
        ensures
            r == sort_key_lt(self.sort_key(), other.sort_key()),
    ;
}

pub open spec fn keys_of<T: Keyed>(v: Seq<T>) -> Seq<(Seq<char>, Seq<char>, nat)> {
    Seq::new(v.len(), |i: int| v[i].sort_key())
}

/// Stable sort by key, in place.
pub fn stable_sort<T: Keyed>(v: &mut Vec<T>)
    ensures
        final(v)@ == arrange(old(v)@, sorted_order(keys_of(old(v)@), old(v)@.len() as int)),
{
    let ghost orig = v@;
    let ghost ks = keys_of(orig);
    let n = v.len();
    let mut i: usize = 0;
    assert(v@.subrange(0, 0) =~= arrange(orig, sorted_order(ks, 0)));
    while i < n
        invariant
            n == orig.len() == v@.len(),
            ks == keys_of(orig),
            i <= n,
            v@.subrange(0, i as int) == arrange(orig, sorted_order(ks, i as int)),
            v@.subrange(i as int, n as int) == orig.subrange(i as int, n as int),
        decreases n - i,
    {
        proof {
            lemma_sorted_order(ks, i as int);
            assert(v@[i as int] == v@.subrange(i as int, n as int)[0]);
        }
        let ghost o = sorted_order(ks, i as int);
        let ghost before = v@;
        let x = v.remove(i);
        proof {
            assert(x == orig[i as int]);
            assert forall|t: int| 0 <= t < i implies #[trigger] v@[t] == orig[o[t] as int] by {
                assert(v@[t] == before.subrange(0, i as int)[t]);
            }
        }
        let mut j: usize = 0;
        while j < i
            invariant
                i < n,
                n == orig.len(),
                v@.len() == n - 1,
                ks == keys_of(orig),
                o == sorted_order(ks, i as int),
                o.len() == i,
                x == orig[i as int],
                forall|t: int| 0 <= t < i ==> #[trigger] v@[t] == orig[o[t] as int],
                forall|t: int| 0 <= t < o.len() ==> #[trigger] o[t] < i,
                j <= i,
                place_from(o, ks, ks[i as int], 0) == place_from(o, ks, ks[i as int], j as int),
            ensures
                j <= i,
                place_from(o, ks, ks[i as int], 0) == j,
            decreases i - j,
        {
            if x.key_less(&v[j]) {
                break;
            }
            j = j + 1;
        }
        let ghost mid = v@;
        v.insert(j, x);
        proof {
            let o2 = o.insert(j as int, i);
            assert(sorted_order(ks, i + 1) == o2);
            assert(v@.subrange(0, i + 1) =~= arrange(orig, o2)) by {
                assert forall|t: int| 0 <= t < i + 1 implies #[trigger] v@.subrange(0, i + 1)[t] == arrange(orig, o2)[t] by {
                    if t < j {
                        assert(v@[t] == mid[t]);
                    } else if t > j {
                        assert(v@[t] == mid[t - 1]);
                    }
                }
            }
            assert forall|t: int| i + 1 <= t < n implies #[trigger] v@[t] == orig[t] by {
                assert(v@[t] == mid[t - 1]);
                assert(mid[t - 1] == before[t]);
                assert(before[t] == before.subrange(i as int, n as int)[t - i]);
            }
            assert(v@.subrange(i + 1, n as int) =~= orig.subrange(i + 1, n as int));
        }
        i = i + 1;
    }
    assert(v@ =~= v@.subrange(0, n as int));
}

} // verus!
