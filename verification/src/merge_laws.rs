//! What merging one item into another keeps: the entries of its arrays.
use vstd::prelude::*;

use crate::json::{get, json_eq, key_index, lemma_key_index, member, Json};
use crate::laws::law_append_keeps_entries;
use crate::merge::{
    add_preserved, append_object_array, append_unique, arrays_step, is_top_level_merge_key, login_step, map_insert,
    merge_favorite, merge_item, merge_members, merge_value_field, no_counts, notes_step, other_members,
    preserve, preserve_all, ItemCounts, ItemState,
};

verus! {

/// Whether the value is an array with an entry equal to `y`.
pub open spec fn array_has(v: Option<Json>, y: Json) -> bool {
    match v {
        Some(Json::Array(ys)) => exists|i: int| 0 <= i < ys.len() && (#[trigger] ys[i] == y || json_eq(ys[i], y)),
        _ => false,
    }
}

/// The array under `key`, where there is one.
spec fn arr(m: Seq<(Seq<char>, Json)>, key: Seq<char>) -> Option<Seq<Json>> {
    match member(m, key) {
        Some(Json::Array(xs)) => Some(xs),
        _ => None,
    }
}

/// No member `key`, or an array.
spec fn array_or_absent(m: Seq<(Seq<char>, Json)>, key: Seq<char>) -> bool {
    member(m, key) is None || arr(m, key) is Some
}

/// From `m0` to `m1` the member `key` stays an array or absent, and an
/// array keeps its entries in front.
spec fn grows(m0: Seq<(Seq<char>, Json)>, m1: Seq<(Seq<char>, Json)>, key: Seq<char>) -> bool {
    &&& array_or_absent(m0, key) ==> array_or_absent(m1, key)
    &&& arr(m0, key) is Some ==> {
        &&& arr(m1, key) is Some
        &&& arr(m0, key)->0.len() <= arr(m1, key)->0.len()
        &&& arr(m1, key)->0.take(arr(m0, key)->0.len() as int) == arr(m0, key)->0
    }
}

spec fn holds(m: Seq<(Seq<char>, Json)>, key: Seq<char>, y: Json) -> bool {
    array_has(member(m, key), y)
}

proof fn lemma_grows_same(m0: Seq<(Seq<char>, Json)>, m1: Seq<(Seq<char>, Json)>, key: Seq<char>)
    requires
        member(m0, key) == member(m1, key),
    ensures
        grows(m0, m1, key),
{
    if arr(m0, key) is Some {
        assert(arr(m1, key)->0.take(arr(m0, key)->0.len() as int) =~= arr(m0, key)->0);
    }
}

proof fn lemma_grows_trans(
    m0: Seq<(Seq<char>, Json)>,
    m1: Seq<(Seq<char>, Json)>,
    m2: Seq<(Seq<char>, Json)>,
    key: Seq<char>,
)
    requires
        grows(m0, m1, key),
        grows(m1, m2, key),
    ensures
        grows(m0, m2, key),
{
    if arr(m0, key) is Some {
        let a = arr(m0, key)->0;
        let b = arr(m1, key)->0;
        let c = arr(m2, key)->0;
        assert(c.take(a.len() as int) =~= c.take(b.len() as int).take(a.len() as int));
    }
}

proof fn lemma_grows_holds(m0: Seq<(Seq<char>, Json)>, m1: Seq<(Seq<char>, Json)>, key: Seq<char>, y: Json)
    requires
        grows(m0, m1, key),
        holds(m0, key, y),
    ensures
        holds(m1, key, y),
{
    let a = arr(m0, key)->0;
    let b = arr(m1, key)->0;
    let i = choose|i: int| 0 <= i < a.len() && (#[trigger] a[i] == y || json_eq(a[i], y));
    assert(b.take(a.len() as int)[i] == b[i]);
}

/// Key positions depend on the member names alone.
proof fn lemma_names(m1: Seq<(Seq<char>, Json)>, m2: Seq<(Seq<char>, Json)>, key: Seq<char>)
    requires
        m1.len() == m2.len(),
        forall|j: int| 0 <= j < m1.len() ==> (#[trigger] m1[j].0 == key) == (m2[j].0 == key),
    ensures
        key_index(m1, key) == key_index(m2, key),
    decreases m1.len(),
{
    if m1.len() > 0 {
        let a = m1.drop_last();
        let b = m2.drop_last();
        assert forall|j: int| 0 <= j < a.len() implies (#[trigger] a[j].0 == key) == (b[j].0 == key) by {
            assert(a[j] == m1[j] && b[j] == m2[j]);
        }
        lemma_names(a, b, key);
        assert(m1.last() == m1[m1.len() - 1]);
        assert(m2.last() == m2[m2.len() - 1]);
    }
}

/// Setting another member leaves member `key` as it is.
proof fn lemma_insert_other(m: Seq<(Seq<char>, Json)>, k2: Seq<char>, v: Json, key: Seq<char>)
    requires
        k2 != key,
    ensures
        member(map_insert(m, k2, v), key) == member(m, key),
        grows(m, map_insert(m, k2, v), key),
{
    lemma_key_index(m, k2);
    lemma_key_index(m, key);
    match key_index(m, k2) {
        Some(i) => {
            let m2 = m.update(i, (k2, v));
            assert forall|j: int| 0 <= j < m.len() implies (#[trigger] m[j].0 == key) == (m2[j].0 == key) by {
                if j == i {
                    assert(m[j].0 == k2);
                }
            }
            lemma_names(m, m2, key);
            lemma_key_index(m, key);
            match key_index(m, key) {
                Some(j) => {
                    assert(j != i);
                    assert(m2[j] == m[j]);
                    assert(member(m2, key) == Some(m[j].1));
                },
                None => {
                    assert(member(m2, key) is None);
                },
            }
            assert(map_insert(m, k2, v) == m2);
        },
        None => {
            let m2 = m.push((k2, v));
            assert(m2.drop_last() =~= m);
            assert(key_index(m2, key) == key_index(m, key));
            if key_index(m, key) is Some {
                let j = key_index(m, key)->0;
                assert(m2[j] == m[j]);
            }
            assert(map_insert(m, k2, v) == m2);
        },
    }
    lemma_grows_same(m, map_insert(m, k2, v), key);
}

/// Setting member `key` gives it the new value.
proof fn lemma_insert_self(m: Seq<(Seq<char>, Json)>, key: Seq<char>, v: Json)
    ensures
        member(map_insert(m, key, v), key) == Some(v),
{
    lemma_key_index(m, key);
    match key_index(m, key) {
        Some(i) => {
            let m2 = m.update(i, (key, v));
            assert forall|j: int| 0 <= j < m.len() implies (#[trigger] m[j].0 == key) == (m2[j].0 == key) by {}
            lemma_names(m, m2, key);
        },
        None => {
            let m2 = m.push((key, v));
            assert(m2.drop_last() =~= m);
        },
    }
}

/// Appending the source's array `k2` lets every array keep its entries;
/// appending array `key` leaves every source entry of it there.
proof fn lemma_append(t: Seq<(Seq<char>, Json)>, s: Seq<(Seq<char>, Json)>, k2: Seq<char>, key: Seq<char>)
    ensures
        grows(t, append_object_array(t, s, k2).0, key),
        k2 == key && array_or_absent(t, key) ==> match member(s, key) {
            Some(Json::Array(sa)) => forall|k: int|
                0 <= k < sa.len() ==> holds(append_object_array(t, s, k2).0, key, #[trigger] sa[k]),
            _ => true,
        },
{
    let r = append_object_array(t, s, k2).0;
    match member(s, k2) {
        Some(Json::Array(sa)) => {
            if sa.len() == 0 {
                lemma_grows_same(t, r, key);
            } else {
                let t1 = if key_index(t, k2) is Some {
                    t
                } else {
                    map_insert(t, k2, Json::Array(Seq::empty()))
                };
                if key_index(t, k2) is None {
                    lemma_insert_self(t, k2, Json::Array(Seq::empty()));
                    if k2 != key {
                        lemma_insert_other(t, k2, Json::Array(Seq::empty()), key);
                    }
                } else {
                    lemma_grows_same(t, t1, key);
                }
                match member(t1, k2) {
                    Some(Json::Array(ta)) => {
                        let (ta2, c) = append_unique(ta, sa);
                        law_append_keeps_entries(ta, sa);
                        if k2 != key {
                            lemma_insert_other(t1, k2, Json::Array(ta2), key);
                            lemma_grows_trans(t, t1, r, key);
                        } else {
                            lemma_insert_self(t1, k2, Json::Array(ta2));
                            assert(arr(r, key) == Some(ta2));
                            if arr(t, key) is Some {
                                assert(t1 == t);
                            }
                            assert forall|k: int| 0 <= k < sa.len() implies holds(r, key, #[trigger] sa[k]) by {
                                let i = choose|i: int| 0 <= i < ta2.len() && (ta2[i] == sa[k] || json_eq(ta2[i], sa[k]));
                                assert(ta2[i] == sa[k] || json_eq(ta2[i], sa[k]));
                            }
                        }
                    },
                    _ => {
                        if k2 != key {
                            lemma_grows_same(t1, r, key);
                            lemma_grows_trans(t, t1, r, key);
                        } else {
                            assert(t1 == t);
                            lemma_grows_same(t, r, key);
                        }
                    },
                }
            }
        },
        _ => {
            lemma_grows_same(t, r, key);
        },
    }
}

/// Keeping a value as a custom field lets every array keep its entries.
proof fn lemma_add_preserved(t: Seq<(Seq<char>, Json)>, name: Seq<char>, v: Json, key: Seq<char>)
    ensures
        grows(t, add_preserved(t, name, v).0, key),
{
    let r = add_preserved(t, name, v).0;
    if crate::json::is_empty(v) {
        lemma_grows_same(t, r, key);
    } else {
        let f = "fields"@;
        let t1 = if key_index(t, f) is Some {
            t
        } else {
            map_insert(t, f, Json::Array(Seq::empty()))
        };
        if key_index(t, f) is None {
            lemma_insert_self(t, f, Json::Array(Seq::empty()));
            if f != key {
                lemma_insert_other(t, f, Json::Array(Seq::empty()), key);
            }
        } else {
            lemma_grows_same(t, t1, key);
        }
        match member(t1, f) {
            Some(Json::Array(fs)) => {
                let field = crate::merge::preserved_field(name, v);
                if crate::merge::any_eq(fs, field) {
                    if f != key {
                        lemma_grows_trans(t, t1, r, key);
                    } else {
                        if arr(t, key) is Some {
                            assert(t1 == t);
                        }
                        lemma_grows_same(t1, r, key);
                        lemma_grows_trans(t, t1, r, key);
                    }
                } else {
                    if f != key {
                        lemma_insert_other(t1, f, Json::Array(fs.push(field)), key);
                        lemma_grows_trans(t, t1, r, key);
                    } else {
                        lemma_insert_self(t1, f, Json::Array(fs.push(field)));
                        if arr(t, key) is Some {
                            assert(t1 == t);
                            assert(fs.push(field).take(fs.len() as int) =~= fs);
                        }
                    }
                }
            },
            _ => {
                if f != key {
                    lemma_grows_same(t1, r, key);
                    lemma_grows_trans(t, t1, r, key);
                } else {
                    assert(t1 == t);
                    lemma_grows_same(t, r, key);
                }
            },
        }
    }
}

proof fn lemma_preserve_all(st: ItemState, disp: Seq<(Seq<char>, Json)>, key: Seq<char>)
    ensures
        grows(st.ms, preserve_all(st, disp).ms, key),
    decreases disp.len(),
{
    if disp.len() == 0 {
        lemma_grows_same(st.ms, st.ms, key);
    } else {
        let mid = preserve_all(st, disp.drop_last());
        lemma_preserve_all(st, disp.drop_last(), key);
        let d = disp.last();
        lemma_add_preserved(mid.ms, d.0, d.1, key);
        lemma_grows_trans(st.ms, mid.ms, preserve(mid, d.0, d.1).ms, key);
    }
}

proof fn lemma_value_field(t: Seq<(Seq<char>, Json)>, k2: Seq<char>, sv: Json, key: Seq<char>)
    requires
        k2 != key,
    ensures
        grows(t, merge_value_field(t, k2, sv).0, key),
{
    lemma_insert_other(t, k2, sv, key);
    lemma_grows_same(t, t, key);
}

proof fn lemma_login_step(st: ItemState, s: Seq<(Seq<char>, Json)>, idx: nat, key: Seq<char>)
    requires
        key != "login"@,
    ensures
        grows(st.ms, login_step(st, s, idx).ms, key),
{
    let l = "login"@;
    match member(s, l) {
        Some(Json::Object(sl)) => {
            let t1 = if key_index(st.ms, l) is Some {
                st.ms
            } else {
                map_insert(st.ms, l, Json::Object(Seq::empty()))
            };
            lemma_insert_other(st.ms, l, Json::Object(Seq::empty()), key);
            lemma_grows_same(st.ms, t1, key);
            match member(t1, l) {
                Some(Json::Object(tl)) => {
                    let (tl2, cu, cf, disp) = crate::merge::merge_login(tl, sl, idx);
                    let ms2 = map_insert(t1, l, Json::Object(tl2));
                    lemma_insert_other(t1, l, Json::Object(tl2), key);
                    let c = st.counts;
                    let st2 = ItemState {
                        ms: ms2,
                        counts: crate::merge::ItemCounts {
                            login_uris: crate::merge::sat_add(c.login_uris, cu),
                            fields: c.fields,
                            history: c.history,
                            fido2: crate::merge::sat_add(c.fido2, cf),
                            collection_ids: c.collection_ids,
                            preserved: c.preserved,
                        },
                    };
                    lemma_preserve_all(st2, disp, key);
                    lemma_grows_trans(st.ms, t1, ms2, key);
                    lemma_grows_trans(st.ms, ms2, preserve_all(st2, disp).ms, key);
                },
                _ => {},
            }
        },
        _ => {
            lemma_grows_same(st.ms, st.ms, key);
        },
    }
}

proof fn lemma_notes_step(st: ItemState, s: Seq<(Seq<char>, Json)>, idx: nat, key: Seq<char>)
    requires
        key != "notes"@,
    ensures
        grows(st.ms, notes_step(st, s, idx).ms, key),
{
    match member(s, "notes"@) {
        Some(sn) => {
            let (m, displaced) = merge_value_field(st.ms, "notes"@, sn);
            lemma_value_field(st.ms, "notes"@, sn, key);
            if displaced {
                let st2 = ItemState { ms: m, counts: st.counts };
                lemma_add_preserved(m, crate::merge::notes_name(idx), sn, key);
                lemma_grows_trans(st.ms, m, preserve(st2, crate::merge::notes_name(idx), sn).ms, key);
            }
        },
        None => {
            lemma_grows_same(st.ms, st.ms, key);
        },
    }
}

proof fn lemma_other_members(st: ItemState, s: Seq<(Seq<char>, Json)>, idx: nat, k: int, key: Seq<char>)
    requires
        is_top_level_merge_key(key),
    ensures
        grows(st.ms, other_members(st, s, idx, k).ms, key),
    decreases k,
{
    if k <= 0 {
        lemma_grows_same(st.ms, st.ms, key);
    } else {
        let st1 = other_members(st, s, idx, k - 1);
        lemma_other_members(st, s, idx, k - 1, key);
        let k2 = s[k - 1].0;
        let sv = s[k - 1].1;
        if !(is_top_level_merge_key(k2) || crate::merge::is_item_metadata_key(k2)) {
            assert(k2 != key);
            let (m, displaced) = merge_value_field(st1.ms, k2, sv);
            lemma_value_field(st1.ms, k2, sv, key);
            lemma_grows_trans(st.ms, st1.ms, m, key);
            if displaced {
                let st2 = ItemState { ms: m, counts: st1.counts };
                lemma_add_preserved(m, crate::merge::member_name(idx, k2), sv, key);
                lemma_grows_trans(st.ms, m, preserve(st2, crate::merge::member_name(idx, k2), sv).ms, key);
            }
        }
    }
}

/// Merging keeps array entries. When one item is merged into another, for
/// each of the arrays `fields`, `passwordHistory` and `collectionIds`: the
/// target's entries stay in front, in order, and every entry of the source's
/// array is in the merged array, or an equal entry is. (A target whose member
/// of that name is not an array keeps it as it is.)
pub proof fn law_merge_keeps_array_entries(target: Json, source: Json, idx: nat, key: Seq<char>)
    requires
        key == "fields"@ || key == "passwordHistory"@ || key == "collectionIds"@,
        target is Object,
        source is Object,
        get(target, key) is None || get(target, key) matches Some(Json::Array(_)),
    ensures
        ({
            let merged = merge_item(target, source, idx).0;
            &&& get(target, key) matches Some(Json::Array(xs)) ==> get(merged, key) matches Some(Json::Array(ys))
                && xs.len() <= ys.len() && ys.take(xs.len() as int) == xs
            &&& get(source, key) matches Some(Json::Array(sa)) ==> forall|k: int|
                0 <= k < sa.len() ==> array_has(get(merged, key), #[trigger] sa[k])
        }),
{
    reveal_strlit("fields");
    reveal_strlit("passwordHistory");
    reveal_strlit("collectionIds");
    reveal_strlit("login");
    reveal_strlit("notes");
    reveal_strlit("favorite");
    assert(key != "login"@ && key != "notes"@ && key != "favorite"@) by {
        assert("login"@.len() == 5);
        assert("notes"@.len() == 5);
        assert("favorite"@.len() == 8);
        assert("fields"@.len() == 6);
        assert("passwordHistory"@.len() == 15);
        assert("collectionIds"@.len() == 13);
    }
    let t = target->Object_0;
    let s = source->Object_0;
    let st0 = ItemState { ms: t, counts: no_counts() };
    let st1 = login_step(st0, s, idx);
    lemma_login_step(st0, s, idx, key);
    let (m1, c1) = append_object_array(st1.ms, s, "fields"@);
    let (m2, c2) = append_object_array(m1, s, "passwordHistory"@);
    let (m3, c3) = append_object_array(m2, s, "collectionIds"@);
    lemma_append(st1.ms, s, "fields"@, key);
    lemma_append(m1, s, "passwordHistory"@, key);
    lemma_append(m2, s, "collectionIds"@, key);
    let st2 = arrays_step(st1, s);
    assert(st2.ms == m3);
    let st3 = ItemState { ms: merge_favorite(st2.ms, s), counts: st2.counts };
    lemma_insert_other(st2.ms, "favorite"@, Json::Bool(true), key);
    lemma_grows_same(st2.ms, st2.ms, key);
    let st4 = notes_step(st3, s, idx);
    lemma_notes_step(st3, s, idx, key);
    let st5 = other_members(st4, s, idx, s.len() as int);
    lemma_other_members(st4, s, idx, s.len() as int, key);
    assert(merge_members(t, s, idx) == st5);
    lemma_grows_trans(t, st1.ms, m1, key);
    lemma_grows_trans(t, m1, m2, key);
    lemma_grows_trans(t, m2, m3, key);
    lemma_grows_trans(m3, st3.ms, st4.ms, key);
    lemma_grows_trans(t, m3, st4.ms, key);
    lemma_grows_trans(t, st4.ms, st5.ms, key);
    let merged = merge_item(target, source, idx).0;
    assert(merged == Json::Object(st5.ms));
    match member(s, key) {
        Some(Json::Array(sa)) => {
            let before = if key == "fields"@ {
                st1.ms
            } else if key == "passwordHistory"@ {
                m1
            } else {
                m2
            };
            let after = if key == "fields"@ {
                m1
            } else if key == "passwordHistory"@ {
                m2
            } else {
                m3
            };
            lemma_grows_trans(st1.ms, m1, m2, key);
            lemma_grows_trans(m1, m2, m3, key);
            lemma_grows_trans(st1.ms, m2, m3, key);
            lemma_grows_trans(m3, st4.ms, st5.ms, key);
            lemma_grows_trans(m2, m3, st5.ms, key);
            lemma_grows_trans(m1, m3, st5.ms, key);
            assert(array_or_absent(before, key));
            assert forall|k: int| 0 <= k < sa.len() implies array_has(get(merged, key), #[trigger] sa[k]) by {
                assert(holds(after, key, sa[k]));
                lemma_grows_holds(after, st5.ms, key, sa[k]);
            }
        },
        _ => {},
    }
}

// ---------------------------------------------------------------------------
// Counting what was appended
/// The number of entries of the array, 0 for anything else.
pub open spec fn array_len(v: Option<Json>) -> nat {
    match v {
        Some(Json::Array(xs)) => xs.len(),
        _ => 0,
    }
}

/// `n`, held at `usize::MAX`.
pub open spec fn capped(n: int) -> nat {
    if n > usize::MAX {
        usize::MAX as nat
    } else if n < 0 {
        0
    } else {
        n as nat
    }
}

spec fn count_of(c: ItemCounts, key: Seq<char>) -> nat {
    if key == "fields"@ {
        c.fields
    } else if key == "passwordHistory"@ {
        c.history
    } else {
        c.collection_ids
    }
}

/// The array `key` grew from `t0` by as many entries as its counter says.
spec fn counted(t0: Seq<(Seq<char>, Json)>, st: ItemState, key: Seq<char>) -> bool {
    &&& array_or_absent(st.ms, key)
    &&& array_len(member(st.ms, key)) >= array_len(member(t0, key))
    &&& count_of(st.counts, key) == capped(array_len(member(st.ms, key)) - array_len(member(t0, key)))
}

proof fn lemma_capped_add(g: int, c: nat)
    requires
        g >= 0,
    ensures
        crate::merge::sat_add(capped(g), c) == capped(g + c),
        capped(g) <= usize::MAX,
{
}

/// One more step that grows the array by `d` and adds `d` to its counter.
proof fn lemma_counted_step(t0: Seq<(Seq<char>, Json)>, st: ItemState, st2: ItemState, key: Seq<char>, d: nat)
    requires
        counted(t0, st, key),
        array_or_absent(st2.ms, key),
        array_len(member(st2.ms, key)) == array_len(member(st.ms, key)) + d,
        count_of(st2.counts, key) == crate::merge::sat_add(count_of(st.counts, key), d),
    ensures
        counted(t0, st2, key),
{
    lemma_capped_add(array_len(member(st.ms, key)) - array_len(member(t0, key)), d);
}

/// A step that leaves the array and its counter as they are.
proof fn lemma_counted_same(t0: Seq<(Seq<char>, Json)>, st: ItemState, st2: ItemState, key: Seq<char>)
    requires
        counted(t0, st, key),
        member(st2.ms, key) == member(st.ms, key),
        count_of(st2.counts, key) == count_of(st.counts, key),
    ensures
        counted(t0, st2, key),
{
}

proof fn lemma_keys_differ(key: Seq<char>)
    requires
        key == "fields"@ || key == "passwordHistory"@ || key == "collectionIds"@,
    ensures
        key != "login"@,
        key != "notes"@,
        key != "favorite"@,
        key == "fields"@ ==> key != "passwordHistory"@ && key != "collectionIds"@,
        key == "passwordHistory"@ ==> key != "fields"@ && key != "collectionIds"@,
        key == "collectionIds"@ ==> key != "fields"@ && key != "passwordHistory"@,
{
    reveal_strlit("fields");
    reveal_strlit("passwordHistory");
    reveal_strlit("collectionIds");
    reveal_strlit("login");
    reveal_strlit("notes");
    reveal_strlit("favorite");
    assert("login"@.len() == 5);
    assert("notes"@.len() == 5);
    assert("favorite"@.len() == 8);
    assert("fields"@.len() == 6);
    assert("passwordHistory"@.len() == 15);
    assert("collectionIds"@.len() == 13);
}

/// Keeping a value as a custom field adds it to `fields` exactly when it
/// counts it, and touches no other array.
proof fn lemma_preserve_counted(t0: Seq<(Seq<char>, Json)>, st: ItemState, name: Seq<char>, v: Json, key: Seq<char>)
    requires
        key == "fields"@ || key == "passwordHistory"@ || key == "collectionIds"@,
        counted(t0, st, key),
    ensures
        counted(t0, preserve(st, name, v), key),
{
    lemma_keys_differ(key);
    let t = st.ms;
    let (r, added) = add_preserved(t, name, v);
    let st2 = preserve(st, name, v);
    let f = "fields"@;
    if crate::json::is_empty(v) {
        lemma_counted_same(t0, st, st2, key);
    } else {
        let t1 = if key_index(t, f) is Some {
            t
        } else {
            map_insert(t, f, Json::Array(Seq::empty()))
        };
        if key_index(t, f) is None {
            lemma_insert_self(t, f, Json::Array(Seq::empty()));
            if f != key {
                lemma_insert_other(t, f, Json::Array(Seq::empty()), key);
            } else {
                lemma_key_index(t, f);
                assert(member(t, key) is None);
            }
        }
        match member(t1, f) {
            Some(Json::Array(fs)) => {
                let field = crate::merge::preserved_field(name, v);
                if crate::merge::any_eq(fs, field) {
                    if f == key {
                        lemma_counted_step(t0, st, st2, key, 0);
                    } else {
                        lemma_counted_same(t0, st, st2, key);
                    }
                } else {
                    if f != key {
                        lemma_insert_other(t1, f, Json::Array(fs.push(field)), key);
                        lemma_counted_same(t0, st, st2, key);
                    } else {
                        lemma_insert_self(t1, f, Json::Array(fs.push(field)));
                        lemma_counted_step(t0, st, st2, key, 1);
                    }
                }
            },
            _ => {
                if f == key {
                    assert(t1 == t);
                }
                lemma_counted_same(t0, st, st2, key);
            },
        }
    }
}

proof fn lemma_preserve_all_counted(t0: Seq<(Seq<char>, Json)>, st: ItemState, disp: Seq<(Seq<char>, Json)>, key: Seq<char>)
    requires
        key == "fields"@ || key == "passwordHistory"@ || key == "collectionIds"@,
        counted(t0, st, key),
    ensures
        counted(t0, preserve_all(st, disp), key),
    decreases disp.len(),
{
    if disp.len() > 0 {
        lemma_preserve_all_counted(t0, st, disp.drop_last(), key);
        let d = disp.last();
        lemma_preserve_counted(t0, preserve_all(st, disp.drop_last()), d.0, d.1, key);
    }
}

proof fn lemma_login_counted(t0: Seq<(Seq<char>, Json)>, st: ItemState, s: Seq<(Seq<char>, Json)>, idx: nat, key: Seq<char>)
    requires
        key == "fields"@ || key == "passwordHistory"@ || key == "collectionIds"@,
        counted(t0, st, key),
    ensures
        counted(t0, login_step(st, s, idx), key),
{
    lemma_keys_differ(key);
    let l = "login"@;
    match member(s, l) {
        Some(Json::Object(sl)) => {
            let t1 = if key_index(st.ms, l) is Some {
                st.ms
            } else {
                map_insert(st.ms, l, Json::Object(Seq::empty()))
            };
            lemma_insert_other(st.ms, l, Json::Object(Seq::empty()), key);
            match member(t1, l) {
                Some(Json::Object(tl)) => {
                    let (tl2, cu, cf, disp) = crate::merge::merge_login(tl, sl, idx);
                    let ms2 = map_insert(t1, l, Json::Object(tl2));
                    lemma_insert_other(t1, l, Json::Object(tl2), key);
                    let c = st.counts;
                    let st2 = ItemState {
                        ms: ms2,
                        counts: ItemCounts {
                            login_uris: crate::merge::sat_add(c.login_uris, cu),
                            fields: c.fields,
                            history: c.history,
                            fido2: crate::merge::sat_add(c.fido2, cf),
                            collection_ids: c.collection_ids,
                            preserved: c.preserved,
                        },
                    };
                    lemma_counted_same(t0, st, st2, key);
                    lemma_preserve_all_counted(t0, st2, disp, key);
                },
                _ => {
                    lemma_counted_same(t0, st, ItemState { ms: t1, counts: st.counts }, key);
                },
            }
        },
        _ => {},
    }
}

/// Appending array `k2` grows array `key` by the count exactly when they are
/// the same array.
proof fn lemma_append_len(t: Seq<(Seq<char>, Json)>, s: Seq<(Seq<char>, Json)>, k2: Seq<char>, key: Seq<char>)
    requires
        array_or_absent(t, key),
    ensures
        array_or_absent(append_object_array(t, s, k2).0, key),
        array_len(member(append_object_array(t, s, k2).0, key)) == array_len(member(t, key)) + if k2 == key {
            append_object_array(t, s, k2).1
        } else {
            0
        },
{
    let r = append_object_array(t, s, k2).0;
    lemma_append(t, s, k2, key);
    match member(s, k2) {
        Some(Json::Array(sa)) => {
            if sa.len() > 0 {
                let t1 = if key_index(t, k2) is Some {
                    t
                } else {
                    map_insert(t, k2, Json::Array(Seq::empty()))
                };
                if key_index(t, k2) is None {
                    lemma_insert_self(t, k2, Json::Array(Seq::empty()));
                    if k2 != key {
                        lemma_insert_other(t, k2, Json::Array(Seq::empty()), key);
                    } else {
                        lemma_key_index(t, k2);
                    }
                }
                match member(t1, k2) {
                    Some(Json::Array(ta)) => {
                        let (ta2, c) = append_unique(ta, sa);
                        law_append_keeps_entries(ta, sa);
                        if k2 != key {
                            lemma_insert_other(t1, k2, Json::Array(ta2), key);
                        } else {
                            lemma_insert_self(t1, k2, Json::Array(ta2));
                        }
                    },
                    _ => {
                        if k2 == key {
                            assert(t1 == t);
                        }
                    },
                }
            }
        },
        _ => {},
    }
}

proof fn lemma_arrays_counted(t0: Seq<(Seq<char>, Json)>, st: ItemState, s: Seq<(Seq<char>, Json)>, key: Seq<char>)
    requires
        key == "fields"@ || key == "passwordHistory"@ || key == "collectionIds"@,
        counted(t0, st, key),
    ensures
        counted(t0, arrays_step(st, s), key),
{
    lemma_keys_differ(key);
    let (m1, c1) = append_object_array(st.ms, s, "fields"@);
    let (m2, c2) = append_object_array(m1, s, "passwordHistory"@);
    let (m3, c3) = append_object_array(m2, s, "collectionIds"@);
    lemma_append_len(st.ms, s, "fields"@, key);
    lemma_append_len(m1, s, "passwordHistory"@, key);
    lemma_append_len(m2, s, "collectionIds"@, key);
    let d = if key == "fields"@ {
        c1
    } else if key == "passwordHistory"@ {
        c2
    } else {
        c3
    };
    lemma_counted_step(t0, st, arrays_step(st, s), key, d);
}

proof fn lemma_notes_counted(t0: Seq<(Seq<char>, Json)>, st: ItemState, s: Seq<(Seq<char>, Json)>, idx: nat, key: Seq<char>)
    requires
        key == "fields"@ || key == "passwordHistory"@ || key == "collectionIds"@,
        counted(t0, st, key),
    ensures
        counted(t0, notes_step(st, s, idx), key),
{
    lemma_keys_differ(key);
    match member(s, "notes"@) {
        Some(sn) => {
            let (m, displaced) = merge_value_field(st.ms, "notes"@, sn);
            lemma_insert_other(st.ms, "notes"@, sn, key);
            let st2 = ItemState { ms: m, counts: st.counts };
            lemma_counted_same(t0, st, st2, key);
            if displaced {
                lemma_preserve_counted(t0, st2, crate::merge::notes_name(idx), sn, key);
            }
        },
        None => {},
    }
}

proof fn lemma_other_counted(
    t0: Seq<(Seq<char>, Json)>,
    st: ItemState,
    s: Seq<(Seq<char>, Json)>,
    idx: nat,
    k: int,
    key: Seq<char>,
)
    requires
        key == "fields"@ || key == "passwordHistory"@ || key == "collectionIds"@,
        counted(t0, st, key),
    ensures
        counted(t0, other_members(st, s, idx, k), key),
    decreases k,
{
    if k > 0 {
        lemma_other_counted(t0, st, s, idx, k - 1, key);
        let st1 = other_members(st, s, idx, k - 1);
        let k2 = s[k - 1].0;
        let sv = s[k - 1].1;
        if !(is_top_level_merge_key(k2) || crate::merge::is_item_metadata_key(k2)) {
            assert(k2 != key);
            let (m, displaced) = merge_value_field(st1.ms, k2, sv);
            lemma_insert_other(st1.ms, k2, sv, key);
            let st2 = ItemState { ms: m, counts: st1.counts };
            lemma_counted_same(t0, st1, st2, key);
            if displaced {
                lemma_preserve_counted(t0, st2, crate::merge::member_name(idx, k2), sv, key);
            }
        }
    }
}

/// Merging counts what it appends. When one item is merged into another,
/// the number of `fields` entries reported appended is the number by which
/// the target's `fields` array grew (the displaced values kept as custom
/// fields among them), and likewise for `passwordHistory` and
/// `collectionIds`; a count is held at `usize::MAX`.
pub proof fn law_merge_counts_appended_entries(target: Json, source: Json, idx: nat, key: Seq<char>)
    requires
        key == "fields"@ || key == "passwordHistory"@ || key == "collectionIds"@,
        target is Object,
        source is Object,
        get(target, key) is None || get(target, key) matches Some(Json::Array(_)),
    ensures
        ({
            let (merged, counts) = merge_item(target, source, idx);
            let grown = array_len(get(merged, key)) - array_len(get(target, key));
            &&& array_len(get(merged, key)) >= array_len(get(target, key))
            &&& key == "fields"@ ==> counts.fields == capped(grown)
            &&& key == "passwordHistory"@ ==> counts.history == capped(grown)
            &&& key == "collectionIds"@ ==> counts.collection_ids == capped(grown)
        }),
{
    lemma_keys_differ(key);
    let t = target->Object_0;
    let s = source->Object_0;
    let st0 = ItemState { ms: t, counts: no_counts() };
    assert(counted(t, st0, key));
    let st1 = login_step(st0, s, idx);
    lemma_login_counted(t, st0, s, idx, key);
    let st2 = arrays_step(st1, s);
    lemma_arrays_counted(t, st1, s, key);
    let st3 = ItemState { ms: merge_favorite(st2.ms, s), counts: st2.counts };
    lemma_insert_other(st2.ms, "favorite"@, Json::Bool(true), key);
    lemma_counted_same(t, st2, st3, key);
    let st4 = notes_step(st3, s, idx);
    lemma_notes_counted(t, st3, s, idx, key);
    let st5 = other_members(st4, s, idx, s.len() as int);
    lemma_other_counted(t, st4, s, idx, s.len() as int, key);
    assert(merge_members(t, s, idx) == st5);
}

// ---------------------------------------------------------------------------
// Login arrays
/// Keeping a value as a custom field changes no member but `fields`.
proof fn lemma_preserve_keeps_member(t: Seq<(Seq<char>, Json)>, name: Seq<char>, v: Json, key: Seq<char>)
    requires
        key != "fields"@,
    ensures
        member(add_preserved(t, name, v).0, key) == member(t, key),
{
    let f = "fields"@;
    if !crate::json::is_empty(v) {
        let t1 = if key_index(t, f) is Some {
            t
        } else {
            map_insert(t, f, Json::Array(Seq::empty()))
        };
        lemma_insert_other(t, f, Json::Array(Seq::empty()), key);
        match member(t1, f) {
            Some(Json::Array(fs)) => {
                let field = crate::merge::preserved_field(name, v);
                lemma_insert_other(t1, f, Json::Array(fs.push(field)), key);
            },
            _ => {},
        }
    }
}

proof fn lemma_preserve_all_keeps_member(st: ItemState, disp: Seq<(Seq<char>, Json)>, key: Seq<char>)
    requires
        key != "fields"@,
    ensures
        member(preserve_all(st, disp).ms, key) == member(st.ms, key),
    decreases disp.len(),
{
    if disp.len() > 0 {
        lemma_preserve_all_keeps_member(st, disp.drop_last(), key);
        let d = disp.last();
        lemma_preserve_keeps_member(preserve_all(st, disp.drop_last()).ms, d.0, d.1, key);
    }
}

/// Appending another array changes no member but that one.
proof fn lemma_append_keeps_member(t: Seq<(Seq<char>, Json)>, s: Seq<(Seq<char>, Json)>, k2: Seq<char>, key: Seq<char>)
    requires
        k2 != key,
    ensures
        member(append_object_array(t, s, k2).0, key) == member(t, key),
{
    match member(s, k2) {
        Some(Json::Array(sa)) => {
            if sa.len() > 0 {
                let t1 = if key_index(t, k2) is Some {
                    t
                } else {
                    map_insert(t, k2, Json::Array(Seq::empty()))
                };
                lemma_insert_other(t, k2, Json::Array(Seq::empty()), key);
                match member(t1, k2) {
                    Some(Json::Array(ta)) => {
                        let (ta2, c) = append_unique(ta, sa);
                        lemma_insert_other(t1, k2, Json::Array(ta2), key);
                    },
                    _ => {},
                }
            }
        },
        _ => {},
    }
}

/// The login members other than `uris` and `fido2Credentials` merged: those
/// two arrays keep their entries.
proof fn lemma_login_fields_grow(t: Seq<(Seq<char>, Json)>, sl: Seq<(Seq<char>, Json)>, idx: nat, k: int, key: Seq<char>)
    requires
        key == "uris"@ || key == "fido2Credentials"@,
    ensures
        grows(t, crate::merge::login_fields(t, sl, idx, k).0, key),
    decreases k,
{
    if k <= 0 {
        lemma_grows_same(t, t, key);
    } else {
        lemma_login_fields_grow(t, sl, idx, k - 1, key);
        let t1 = crate::merge::login_fields(t, sl, idx, k - 1).0;
        let k2 = sl[k - 1].0;
        let sv = sl[k - 1].1;
        if !(k2 == "uris"@ || k2 == "fido2Credentials"@) {
            lemma_value_field(t1, k2, sv, key);
            lemma_grows_trans(t, t1, merge_value_field(t1, k2, sv).0, key);
        }
    }
}

/// The steps after the login's leave the login as it is.
proof fn lemma_later_steps_keep_login(st1: ItemState, s: Seq<(Seq<char>, Json)>, idx: nat)
    ensures
        ({
            let st2 = arrays_step(st1, s);
            let st3 = ItemState { ms: merge_favorite(st2.ms, s), counts: st2.counts };
            let st4 = notes_step(st3, s, idx);
            let st5 = other_members(st4, s, idx, s.len() as int);
            member(st5.ms, "login"@) == member(st1.ms, "login"@)
        }),
{
    let l = "login"@;
    reveal_strlit("login");
    reveal_strlit("fields");
    reveal_strlit("passwordHistory");
    reveal_strlit("collectionIds");
    reveal_strlit("notes");
    reveal_strlit("favorite");
    assert(l.len() == 5 && "fields"@.len() == 6 && "passwordHistory"@.len() == 15 && "collectionIds"@.len() == 13
        && "favorite"@.len() == 8);
    assert(l != "notes"@) by {
        assert(l[0] != "notes"@[0]);
    }
    let (m1, c1) = append_object_array(st1.ms, s, "fields"@);
    let (m2, c2) = append_object_array(m1, s, "passwordHistory"@);
    lemma_append_keeps_member(st1.ms, s, "fields"@, l);
    lemma_append_keeps_member(m1, s, "passwordHistory"@, l);
    lemma_append_keeps_member(m2, s, "collectionIds"@, l);
    let st2 = arrays_step(st1, s);
    lemma_insert_other(st2.ms, "favorite"@, Json::Bool(true), l);
    let st3 = ItemState { ms: merge_favorite(st2.ms, s), counts: st2.counts };
    match member(s, "notes"@) {
        Some(sn) => {
            let (m, displaced) = merge_value_field(st3.ms, "notes"@, sn);
            lemma_insert_other(st3.ms, "notes"@, sn, l);
            if displaced {
                lemma_preserve_keeps_member(m, crate::merge::notes_name(idx), sn, l);
            }
        },
        None => {},
    }
    let st4 = notes_step(st3, s, idx);
    lemma_other_keeps_login(st4, s, idx, s.len() as int);
}

proof fn lemma_other_keeps_login(st: ItemState, s: Seq<(Seq<char>, Json)>, idx: nat, k: int)
    ensures
        member(other_members(st, s, idx, k).ms, "login"@) == member(st.ms, "login"@),
    decreases k,
{
    reveal_strlit("login");
    reveal_strlit("fields");
    assert("login"@.len() == 5 && "fields"@.len() == 6);
    if k > 0 {
        lemma_other_keeps_login(st, s, idx, k - 1);
        let st1 = other_members(st, s, idx, k - 1);
        let k2 = s[k - 1].0;
        let sv = s[k - 1].1;
        if !(is_top_level_merge_key(k2) || crate::merge::is_item_metadata_key(k2)) {
            assert(k2 != "login"@);
            let (m, displaced) = merge_value_field(st1.ms, k2, sv);
            lemma_insert_other(st1.ms, k2, sv, "login"@);
            if displaced {
                lemma_preserve_keeps_member(m, crate::merge::member_name(idx, k2), sv, "login"@);
            }
        }
    }
}

/// The member `key` of an item's login, where the login is an object with
/// one.
pub open spec fn login_member(item: Json, key: Seq<char>) -> Option<Json> {
    match get(item, "login"@) {
        Some(Json::Object(ml)) => member(ml, key),
        _ => None,
    }
}

/// Merging keeps login URIs and passkeys. When one item is merged into
/// another, for each of the login's arrays `uris` and `fido2Credentials`:
/// the target's entries stay in front, in order, and every entry of the
/// source's array is in the merged login's array, or an equal entry is.
pub proof fn law_merge_keeps_login_entries(target: Json, source: Json, idx: nat, key: Seq<char>)
    requires
        key == "uris"@ || key == "fido2Credentials"@,
        target is Object,
        source is Object,
        get(target, "login"@) is None || get(target, "login"@) matches Some(Json::Object(_)),
        login_member(target, key) is None || login_member(target, key) matches Some(Json::Array(_)),
    ensures
        ({
            let merged = merge_item(target, source, idx).0;
            &&& login_member(target, key) matches Some(Json::Array(xs)) ==> login_member(merged, key) matches Some(
                Json::Array(ys),
            ) && xs.len() <= ys.len() && ys.take(xs.len() as int) == xs
            &&& login_member(source, key) matches Some(Json::Array(sa)) ==> forall|k: int|
                0 <= k < sa.len() ==> array_has(login_member(merged, key), #[trigger] sa[k])
        }),
{
    reveal_strlit("uris");
    reveal_strlit("fido2Credentials");
    reveal_strlit("fields");
    reveal_strlit("login");
    assert("uris"@.len() == 4 && "fido2Credentials"@.len() == 16 && "fields"@.len() == 6 && "login"@.len() == 5);
    let l = "login"@;
    let t = target->Object_0;
    let s = source->Object_0;
    let st0 = ItemState { ms: t, counts: no_counts() };
    let st1 = login_step(st0, s, idx);
    lemma_later_steps_keep_login(st1, s, idx);
    let st2 = arrays_step(st1, s);
    let st3 = ItemState { ms: merge_favorite(st2.ms, s), counts: st2.counts };
    let st4 = notes_step(st3, s, idx);
    let st5 = other_members(st4, s, idx, s.len() as int);
    assert(merge_members(t, s, idx) == st5);
    let merged = merge_item(target, source, idx).0;
    assert(merged == Json::Object(st5.ms));
    match member(s, l) {
        Some(Json::Object(sl)) => {
            let t1 = if key_index(t, l) is Some {
                t
            } else {
                map_insert(t, l, Json::Object(Seq::empty()))
            };
            if key_index(t, l) is None {
                lemma_insert_self(t, l, Json::Object(Seq::empty()));
            }
            match member(t1, l) {
                Some(Json::Object(tl)) => {
                    let (a1, cu) = append_object_array(tl, sl, "uris"@);
                    let (a2, cf) = append_object_array(a1, sl, "fido2Credentials"@);
                    let (a3, disp) = crate::merge::login_fields(a2, sl, idx, sl.len() as int);
                    assert(crate::merge::merge_login(tl, sl, idx).0 == a3);
                    lemma_append(tl, sl, "uris"@, key);
                    lemma_append(a1, sl, "fido2Credentials"@, key);
                    lemma_login_fields_grow(a2, sl, idx, sl.len() as int, key);
                    lemma_grows_trans(tl, a1, a2, key);
                    lemma_grows_trans(tl, a2, a3, key);
                    lemma_grows_trans(a1, a2, a3, key);
                    let ms2 = map_insert(t1, l, Json::Object(a3));
                    lemma_insert_self(t1, l, Json::Object(a3));
                    let c = st0.counts;
                    let stl = ItemState {
                        ms: ms2,
                        counts: ItemCounts {
                            login_uris: crate::merge::sat_add(c.login_uris, cu),
                            fields: c.fields,
                            history: c.history,
                            fido2: crate::merge::sat_add(c.fido2, cf),
                            collection_ids: c.collection_ids,
                            preserved: c.preserved,
                        },
                    };
                    lemma_preserve_all_keeps_member(stl, disp, l);
                    assert(member(st5.ms, l) == Some(Json::Object(a3)));
                    if key_index(t, l) is None {
                        lemma_key_index(t, l);
                        assert(member(tl, key) is None) by {
                            assert(tl == Seq::<(Seq<char>, Json)>::empty());
                        }
                    }
                    match member(sl, key) {
                        Some(Json::Array(sa)) => {
                            let before = if key == "uris"@ {
                                tl
                            } else {
                                a1
                            };
                            let after = if key == "uris"@ {
                                a1
                            } else {
                                a2
                            };
                            assert(array_or_absent(before, key));
                            assert forall|k: int| 0 <= k < sa.len() implies array_has(
                                member(a3, key),
                                #[trigger] sa[k],
                            ) by {
                                assert(holds(after, key, sa[k]));
                                lemma_grows_holds(after, a3, key, sa[k]);
                            }
                        },
                        _ => {},
                    }
                },
                _ => {},
            }
        },
        _ => {
            assert(st1 == st0);
            if get(target, l) is Some {
                let tl = get(target, l)->0->Object_0;
                if member(tl, key) is Some {
                    let xs = member(tl, key)->0->Array_0;
                    assert(xs.take(xs.len() as int) =~= xs);
                }
            }
        },
    }
}

} // verus!
