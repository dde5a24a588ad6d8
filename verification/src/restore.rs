//! Restoring sanitized documents, and what sanitization and restoration
//! promise together.
use vstd::prelude::*;

use crate::json::{lemma_model_array, lemma_model_object, member_models, models, Json, JsonValue};
use crate::sanitize::{
    initial_next, initial_state, lemma_flatten_len_mono, lemma_run_facts,
    masked_with, next_token_number, run_tokens, sanitize_fits,
    sanitized_state, should_mask, string_count, token_index, token_step, token_text, consistent,
    MappingFile, RestoreReport, TokenState, initial_by_original,
};
use crate::strmap::{find_key, key_pos, lemma_map_of_at, map_of, pairs, sorted};
use crate::tree::{
    item_leaves, lemma_flatten_take, lemma_leaves_map, lemma_map_strings_array,
    lemma_map_strings_compose, lemma_map_strings_identity, lemma_map_strings_object, leaves,
    map_strings, member_leaves, Leaf,
};

verus! {

/// Each string value that is a token of the mapping becomes its original.
pub open spec fn restored_with(entries: Map<Seq<char>, Seq<char>>) -> spec_fn(
    Seq<Seq<char>>,
    Seq<char>,
) -> Seq<char> {
    |p: Seq<Seq<char>>, s: Seq<char>|
        if entries.contains_key(s) {
            entries[s]
        } else {
            s
        }
}

/// How many of the string values `ls` are tokens of the mapping.
pub open spec fn token_hits(ls: Seq<Leaf>, entries: Map<Seq<char>, Seq<char>>) -> nat
    decreases ls.len(),
{
    if ls.len() == 0 {
        0
    } else {
        token_hits(ls.drop_last(), entries) + if entries.contains_key(ls.last().1) {
            1nat
        } else {
            0nat
        }
    }
}

pub proof fn lemma_token_hits_concat(a: Seq<Leaf>, b: Seq<Leaf>, m: Map<Seq<char>, Seq<char>>)
    ensures
        token_hits(a + b, m) == token_hits(a, m) + token_hits(b, m),
    decreases b.len(),
{
    if b.len() == 0 {
        assert(a + b =~= a);
    } else {
        lemma_token_hits_concat(a, b.drop_last(), m);
        assert((a + b).drop_last() =~= a + b.drop_last());
    }
}

pub proof fn lemma_token_hits_bound(a: Seq<Leaf>, m: Map<Seq<char>, Seq<char>>)
    ensures
        token_hits(a, m) <= a.len(),
    decreases a.len(),
{
    if a.len() > 0 {
        lemma_token_hits_bound(a.drop_last(), m);
    }
}

/// Replaces each string value that is a token of `entries` by its original,
/// returning how many were replaced.
fn restore_value(
    value: &mut JsonValue,
    entries: &Vec<(String, String)>,
    Ghost(path): Ghost<Seq<Seq<char>>>,
) -> (n: usize)
    requires
        sorted(pairs(entries@)),
        leaves(old(value).model(), path).len() <= usize::MAX,
    ensures
        final(value).model() == map_strings(
            old(value).model(),
            path,
            restored_with(map_of(pairs(entries@))),
        ),
        n == token_hits(leaves(old(value).model(), path), map_of(pairs(entries@))),
    decreases *old(value),
{
    let ghost m = map_of(pairs(entries@));
    let ghost f = restored_with(m);
    match value {
        JsonValue::String(text) => {
            let ghost l = (path, text@);
            assert(leaves(Json::Str(text@), path) == seq![l]);
            assert(seq![l].drop_last() =~= Seq::<Leaf>::empty());
            assert(token_hits(Seq::<Leaf>::empty(), m) == 0);
            match find_key(entries, text.as_str()) {
                Some(i) => {
                    proof {
                        lemma_map_of_at(pairs(entries@), i as int);
                        assert(m.contains_key(l.1));
                        assert(token_hits(seq![l], m) == 1);
                    }
                    *text = entries[i].1.clone();
                    1
                },
                None => {
                    assert(!m.contains_key(l.1));
                    assert(token_hits(seq![l], m) == 0);
                    0
                },
            }
        },
        JsonValue::Array(items) => {
            let ghost orig = *items;
            let ghost xs0 = models(items@);
            proof {
                lemma_model_array(orig);
            }
            let ghost blocks = item_leaves(xs0, path);
            proof {
                assert(blocks.take(0) =~= Seq::<Seq<Leaf>>::empty());
            }
            let mut total: usize = 0;
            let mut i: usize = 0;
            while i < items.len()
                invariant
                    i <= xs0.len(),
                    items@.len() == xs0.len(),
                    xs0 == models(orig@),
                    blocks == item_leaves(xs0, path),
                    m == map_of(pairs(entries@)),
                    f == restored_with(m),
                    sorted(pairs(entries@)),
                    decreases_to!(*old(value) => orig),
                    blocks.flatten_alt().len() <= usize::MAX,
                    total == token_hits(blocks.take(i as int).flatten_alt(), m),
                    forall|k: int| i <= k < xs0.len() ==> #[trigger] items@[k] == orig@[k],
                    forall|k: int|
                        0 <= k < i ==> #[trigger] items@[k].model() == map_strings(xs0[k], path, f),
                decreases xs0.len() - i,
            {
                proof {
                    assert(decreases_to!(orig => orig@));
                    assert(decreases_to!(orig@ => orig@[i as int]));
                    lemma_flatten_take(blocks, i as int);
                    lemma_flatten_len_mono(blocks, i + 1);
                    assert(blocks[i as int] == leaves(xs0[i as int], path));
                    lemma_token_hits_concat(blocks.take(i as int).flatten_alt(), blocks[i as int], m);
                    lemma_token_hits_bound(blocks.take(i + 1).flatten_alt(), m);
                }
                let ghost before = *items;
                let n = restore_value(&mut items[i], entries, Ghost(path));
                total = total + n;
                proof {
                    assert forall|k: int| 0 <= k < i + 1 implies #[trigger] items@[k].model()
                        == map_strings(xs0[k], path, f) by {
                        if k < i {
                            assert(items@[k] == before[k]);
                        }
                    }
                }
                i = i + 1;
            }
            proof {
                assert(blocks.take(i as int) =~= blocks);
                lemma_model_array(*items);
                lemma_map_strings_array(xs0, path, f);
                assert(models(items@) =~= Seq::new(
                    xs0.len(),
                    |k: int| map_strings(xs0[k], path, f),
                ));
            }
            total
        },
        JsonValue::Object(members) => {
            let ghost orig = *members;
            let ghost ms0 = member_models(members@);
            proof {
                lemma_model_object(orig);
            }
            let ghost blocks = member_leaves(ms0, path);
            proof {
                assert(blocks.take(0) =~= Seq::<Seq<Leaf>>::empty());
            }
            let mut total: usize = 0;
            let mut i: usize = 0;
            while i < members.len()
                invariant
                    i <= ms0.len(),
                    members@.len() == ms0.len(),
                    ms0 == member_models(orig@),
                    blocks == member_leaves(ms0, path),
                    m == map_of(pairs(entries@)),
                    f == restored_with(m),
                    sorted(pairs(entries@)),
                    decreases_to!(*old(value) => orig),
                    blocks.flatten_alt().len() <= usize::MAX,
                    total == token_hits(blocks.take(i as int).flatten_alt(), m),
                    forall|k: int| i <= k < ms0.len() ==> #[trigger] members@[k] == orig@[k],
                    forall|k: int|
                        0 <= k < i ==> #[trigger] members@[k].0@ == ms0[k].0
                            && members@[k].1.model() == map_strings(
                            ms0[k].1,
                            path.push(ms0[k].0),
                            f,
                        ),
                decreases ms0.len() - i,
            {
                proof {
                    assert(decreases_to!(orig => orig@));
                    assert(decreases_to!(orig@ => orig@[i as int]));
                    assert(decreases_to!(orig@[i as int] => orig@[i as int].1));
                    lemma_flatten_take(blocks, i as int);
                    lemma_flatten_len_mono(blocks, i + 1);
                    assert(blocks[i as int] == leaves(ms0[i as int].1, path.push(ms0[i as int].0)));
                    lemma_token_hits_concat(blocks.take(i as int).flatten_alt(), blocks[i as int], m);
                    lemma_token_hits_bound(blocks.take(i + 1).flatten_alt(), m);
                }
                let ghost before = *members;
                let n = restore_value(
                    &mut members[i].1,
                    entries,
                    Ghost(path.push(ms0[i as int].0)),
                );
                total = total + n;
                proof {
                    assert forall|k: int| 0 <= k < i + 1 implies #[trigger] members@[k].0@
                        == ms0[k].0 && members@[k].1.model() == map_strings(
                        ms0[k].1,
                        path.push(ms0[k].0),
                        f,
                    ) by {
                        if k < i {
                            assert(members@[k] == before[k]);
                        }
                    }
                }
                i = i + 1;
            }
            proof {
                assert(blocks.take(i as int) =~= blocks);
                lemma_model_object(*members);
                lemma_map_strings_object(ms0, path, f);
                assert(member_models(members@) =~= Seq::new(
                    ms0.len(),
                    |k: int| (ms0[k].0, map_strings(ms0[k].1, path.push(ms0[k].0), f)),
                ));
            }
            total
        },
        _ => {
            assert(leaves(old(value).model(), path) =~= Seq::<Leaf>::empty());
            0
        },
    }
}

/// `restore_json`: replaces every string value that is a token of the mapping
/// by its original value.
pub fn restore_json(value: &mut JsonValue, mapping: &MappingFile) -> (r: RestoreReport)
    requires
        mapping.wf(),
        string_count(old(value).model()) <= usize::MAX,
    ensures
        final(value).model() == map_strings(
            old(value).model(),
            Seq::empty(),
            restored_with(mapping.map()),
        ),
        r.restored_values == token_hits(leaves(old(value).model(), Seq::empty()), mapping.map()),
{
    let restored_values = restore_value(value, &mapping.entries, Ghost(Seq::empty()));
    RestoreReport { restored_values }
}

/// Number of string values of a document, or `None` when it exceeds `usize`.
fn count_strings(value: &JsonValue, Ghost(path): Ghost<Seq<Seq<char>>>) -> (r: Option<usize>)
    ensures
        r matches Some(n) ==> n == leaves(value.model(), path).len(),
        r is None ==> leaves(value.model(), path).len() > usize::MAX,
    decreases value,
{
    match value {
        JsonValue::String(text) => {
            assert(leaves(value.model(), path).len() == 1);
            Some(1)
        },
        JsonValue::Array(items) => {
            let ghost xs0 = models(items@);
            proof {
                lemma_model_array(*items);
            }
            let ghost blocks = item_leaves(xs0, path);
            assert(blocks.take(0) =~= Seq::<Seq<Leaf>>::empty());
            let mut total: usize = 0;
            let mut i: usize = 0;
            while i < items.len()
                invariant
                    i <= xs0.len(),
                    items@.len() == xs0.len(),
                    xs0 == models(items@),
                    blocks == item_leaves(xs0, path),
                    decreases_to!(value => *items),
                    leaves(value.model(), path) == blocks.flatten_alt(),
                    total == blocks.take(i as int).flatten_alt().len(),
                decreases xs0.len() - i,
            {
                proof {
                    assert(decreases_to!(*items => items@));
                    assert(decreases_to!(items@ => items@[i as int]));
                    lemma_flatten_take(blocks, i as int);
                    lemma_flatten_len_mono(blocks, i + 1);
                    assert(blocks[i as int] == leaves(xs0[i as int], path));
                }
                match count_strings(&items[i], Ghost(path)) {
                    Some(n) => {
                        if n > usize::MAX - total {
                            return None;
                        }
                        total = total + n;
                    },
                    None => {
                        return None;
                    },
                }
                i = i + 1;
            }
            assert(blocks.take(i as int) =~= blocks);
            Some(total)
        },
        JsonValue::Object(members) => {
            let ghost ms0 = member_models(members@);
            proof {
                lemma_model_object(*members);
            }
            let ghost blocks = member_leaves(ms0, path);
            assert(blocks.take(0) =~= Seq::<Seq<Leaf>>::empty());
            let mut total: usize = 0;
            let mut i: usize = 0;
            while i < members.len()
                invariant
                    i <= ms0.len(),
                    members@.len() == ms0.len(),
                    ms0 == member_models(members@),
                    blocks == member_leaves(ms0, path),
                    decreases_to!(value => *members),
                    leaves(value.model(), path) == blocks.flatten_alt(),
                    total == blocks.take(i as int).flatten_alt().len(),
                decreases ms0.len() - i,
            {
                proof {
                    assert(decreases_to!(*members => members@));
                    assert(decreases_to!(members@ => members@[i as int]));
                    assert(decreases_to!(members@[i as int] => members@[i as int].1));
                    lemma_flatten_take(blocks, i as int);
                    lemma_flatten_len_mono(blocks, i + 1);
                    assert(blocks[i as int] == leaves(ms0[i as int].1, path.push(ms0[i as int].0)));
                }
                match count_strings(&members[i].1, Ghost(path.push(ms0[i as int].0))) {
                    Some(n) => {
                        if n > usize::MAX - total {
                            return None;
                        }
                        total = total + n;
                    },
                    None => {
                        return None;
                    },
                }
                i = i + 1;
            }
            assert(blocks.take(i as int) =~= blocks);
            Some(total)
        },
        _ => {
            assert(leaves(value.model(), path) =~= Seq::<Leaf>::empty());
            Some(0)
        },
    }
}

/// Number of string values of a document, or `None` when it exceeds `usize`.
pub fn string_value_count(value: &JsonValue) -> (r: Option<usize>)
    ensures
        r matches Some(n) ==> n == string_count(value.model()),
        r is None ==> string_count(value.model()) > usize::MAX,
{
    count_strings(value, Ghost(Seq::empty()))
}

/// Whether `sanitize_json` can run on `value` from `mapping` with every token
/// number and count within `usize`.
pub fn sanitize_fits_exec(value: &JsonValue, mapping: &MappingFile) -> (r: bool)
    ensures
        r == sanitize_fits(value.model(), pairs(mapping.entries@)),
{
    match next_token_number(&mapping.entries) {
        Some(next) => match string_value_count(value) {
            Some(count) => next <= usize::MAX - count,
            None => false,
        },
        None => false,
    }
}

/// What the starting state holds after the first `i` mapping pairs: each
/// original value has the first token (in pair order) that maps to it, and
/// the next token number is above every token number met.
proof fn lemma_initial_prefix(ps: Seq<(Seq<char>, Seq<char>)>, i: int)
    requires
        0 <= i <= ps.len(),
    ensures
        forall|s: Seq<char>| #[trigger]
            initial_by_original(ps.take(i)).contains_key(s) <==> exists|j: int|
                0 <= j < i && ps[j].1 == s,
        forall|s: Seq<char>| #[trigger]
            initial_by_original(ps.take(i)).contains_key(s) ==> exists|j: int|
                0 <= j < i && ps[j].0 == initial_by_original(ps.take(i))[s] && ps[j].1 == s
                    && forall|j2: int| 0 <= j2 < j ==> ps[j2].1 != s,
        forall|j: int|
            0 <= j < i ==> (token_index(#[trigger] ps[j].0) matches Some(t) ==> t < initial_next(
                ps.take(i),
            )),
        initial_next(ps.take(i)) >= 1,
    decreases i,
{
    if i == 0 {
        assert(ps.take(0) =~= Seq::<(Seq<char>, Seq<char>)>::empty());
    } else {
        lemma_initial_prefix(ps, i - 1);
        assert(ps.take(i).drop_last() =~= ps.take(i - 1));
        assert(ps.take(i).last() == ps[i - 1]);
        let m0 = initial_by_original(ps.take(i - 1));
        let m1 = initial_by_original(ps.take(i));
        assert forall|s: Seq<char>| #[trigger] m1.contains_key(s) <==> exists|j: int|
            0 <= j < i && ps[j].1 == s by {
            if m1.contains_key(s) && s != ps[i - 1].1 {
                assert(m0.contains_key(s));
            }
            if exists|j: int| 0 <= j < i && ps[j].1 == s {
                let j = choose|j: int| 0 <= j < i && ps[j].1 == s;
                if j < i - 1 {
                    assert(m0.contains_key(s));
                }
            }
        }
        assert forall|s: Seq<char>| #[trigger] m1.contains_key(s) implies exists|j: int|
            0 <= j < i && ps[j].0 == m1[s] && ps[j].1 == s && forall|j2: int|
                0 <= j2 < j ==> ps[j2].1 != s by {
            if m0.contains_key(s) {
                let j = choose|j: int|
                    0 <= j < i - 1 && ps[j].0 == m0[s] && ps[j].1 == s && forall|j2: int|
                        0 <= j2 < j ==> ps[j2].1 != s;
                assert(ps[j].0 == m1[s]);
            } else {
                assert(s == ps[i - 1].1);
                assert(forall|j2: int| 0 <= j2 < i - 1 ==> ps[j2].1 != s);
            }
        }
    }
}

/// The starting state is consistent.
proof fn lemma_initial_consistent(ps: Seq<(Seq<char>, Seq<char>)>)
    requires
        sorted(ps),
    ensures
        consistent(initial_state(ps)),
        initial_state(ps).next >= 1,
{
    lemma_initial_prefix(ps, ps.len() as int);
    assert(ps.take(ps.len() as int) =~= ps);
    let st = initial_state(ps);
    assert forall|s: Seq<char>| #[trigger] st.by_original.contains_key(s) implies st.entries.contains_key(
        st.by_original[s],
    ) && st.entries[st.by_original[s]] == s by {
        let j = choose|j: int|
            0 <= j < ps.len() && ps[j].0 == st.by_original[s] && ps[j].1 == s && forall|j2: int|
                0 <= j2 < j ==> ps[j2].1 != s;
        lemma_map_of_at(ps, j);
    }
    assert forall|k: Seq<char>| #[trigger] st.entries.contains_key(k) implies (token_index(
        k,
    ) matches Some(t) ==> t < st.next) by {
        let j = key_pos(ps, k);
        assert(ps[j].0 == k);
    }
}

/// Restoring undoes sanitizing. Restoring a sanitized document with the
/// mapping that sanitizing returned gives back the original document, and
/// restores as many values as sanitizing replaced, provided no string value
/// that was kept readable is itself one of the mapping's tokens.
pub proof fn law_restore_undoes_sanitize(v: Json, ps: Seq<(Seq<char>, Seq<char>)>)
    requires
        sorted(ps),
        sanitize_fits(v, ps),
        forall|e: Leaf| #[trigger]
            leaves(v, Seq::empty()).contains(e) && !should_mask(e.0, e.1) ==> !sanitized_state(
                v,
                ps,
            ).entries.contains_key(e.1),
    ensures
        map_strings(
            map_strings(v, Seq::empty(), masked_with(sanitized_state(v, ps).by_original)),
            Seq::empty(),
            restored_with(sanitized_state(v, ps).entries),
        ) == v,
        token_hits(
            leaves(map_strings(v, Seq::empty(), masked_with(sanitized_state(v, ps).by_original)), Seq::empty()),
            sanitized_state(v, ps).entries,
        ) == sanitized_state(v, ps).replaced,
{
    let st = sanitized_state(v, ps);
    let ls = leaves(v, Seq::empty());
    lemma_initial_consistent(ps);
    lemma_run_facts(initial_state(ps), ls);
    let f = masked_with(st.by_original);
    let g = restored_with(st.entries);
    lemma_map_strings_compose(v, Seq::empty(), f, g);
    let h = |p: Seq<Seq<char>>, s: Seq<char>| g(p, f(p, s));
    assert forall|e: Leaf| #[trigger] ls.contains(e) implies h(e.0, e.1) == e.1 by {
        if should_mask(e.0, e.1) {
            assert(st.by_original.contains_key(e.1));
        }
    }
    lemma_map_strings_identity(v, Seq::empty(), h);
    lemma_leaves_map(v, Seq::empty(), f);
    lemma_hits_masked(ls, st.by_original, st.entries);
    lemma_run_replaced(initial_state(ps), ls);
}

/// Masking string values that all have tokens, where no value left readable
/// is a token, gives as many token values as there were masked values.
proof fn lemma_hits_masked(
    ls: Seq<Leaf>,
    by_original: Map<Seq<char>, Seq<char>>,
    entries: Map<Seq<char>, Seq<char>>,
)
    requires
        forall|e: Leaf| #[trigger]
            ls.contains(e) && should_mask(e.0, e.1) ==> by_original.contains_key(e.1) && entries.contains_key(
                by_original[e.1],
            ),
        forall|e: Leaf| #[trigger] ls.contains(e) && !should_mask(e.0, e.1) ==> !entries.contains_key(e.1),
    ensures
        token_hits(ls.map_values(|e: Leaf| (e.0, masked_with(by_original)(e.0, e.1))), entries) == masked_count(
            ls,
        ),
    decreases ls.len(),
{
    let h = |e: Leaf| (e.0, masked_with(by_original)(e.0, e.1));
    if ls.len() > 0 {
        let init = ls.drop_last();
        assert forall|e: Leaf| #[trigger] init.contains(e) implies ls.contains(e) by {
            let k = choose|k: int| 0 <= k < init.len() && init[k] == e;
            assert(ls[k] == e);
        }
        lemma_hits_masked(init, by_original, entries);
        assert(ls.map_values(h).drop_last() =~= init.map_values(h));
        let l = ls.last();
        assert(ls.contains(l));
        assert(ls.map_values(h).last() == h(l));
    }
}

/// Tokens are stable. Within one sanitization, every masked value is
/// replaced by a token that the returned mapping sends back to it; two masked
/// values get the same token exactly when they are the same value.
pub proof fn law_same_value_same_token(
    v: Json,
    ps: Seq<(Seq<char>, Seq<char>)>,
    a: Leaf,
    b: Leaf,
)
    requires
        sorted(ps),
        sanitize_fits(v, ps),
        leaves(v, Seq::empty()).contains(a),
        leaves(v, Seq::empty()).contains(b),
        should_mask(a.0, a.1),
        should_mask(b.0, b.1),
    ensures
        ({
            let st = sanitized_state(v, ps);
            let ta = masked_with(st.by_original)(a.0, a.1);
            let tb = masked_with(st.by_original)(b.0, b.1);
            &&& st.entries.contains_key(ta)
            &&& st.entries[ta] == a.1
            &&& (ta == tb <==> a.1 == b.1)
        }),
{
    let st = sanitized_state(v, ps);
    let ls = leaves(v, Seq::empty());
    lemma_initial_consistent(ps);
    lemma_run_facts(initial_state(ps), ls);
    assert(st.by_original.contains_key(a.1));
    assert(st.by_original.contains_key(b.1));
}

/// Existing mappings are reused. Sanitizing keeps every pair of the mapping
/// it starts from, and a masked value that the mapping already holds gets the
/// first token, in token order, that maps to it.
pub proof fn law_existing_tokens_reused(v: Json, ps: Seq<(Seq<char>, Seq<char>)>, e: Leaf)
    requires
        sorted(ps),
        sanitize_fits(v, ps),
        leaves(v, Seq::empty()).contains(e),
        should_mask(e.0, e.1),
        exists|j: int| 0 <= j < ps.len() && ps[j].1 == e.1,
    ensures
        map_of(ps) <= sanitized_state(v, ps).entries,
        ({
            let t = masked_with(sanitized_state(v, ps).by_original)(e.0, e.1);
            exists|j: int|
                0 <= j < ps.len() && ps[j] == (t, e.1) && forall|j2: int|
                    0 <= j2 < j ==> ps[j2].1 != e.1
        }),
{
    let ls = leaves(v, Seq::empty());
    lemma_initial_consistent(ps);
    lemma_run_facts(initial_state(ps), ls);
    lemma_initial_prefix(ps, ps.len() as int);
    assert(ps.take(ps.len() as int) =~= ps);
    let m = initial_by_original(ps);
    assert(m.contains_key(e.1));
}

/// Number of masked values among `ls`.
pub open spec fn masked_count(ls: Seq<Leaf>) -> nat
    decreases ls.len(),
{
    if ls.len() == 0 {
        0
    } else {
        masked_count(ls.drop_last()) + if should_mask(ls.last().0, ls.last().1) {
            1nat
        } else {
            0nat
        }
    }
}

proof fn lemma_run_replaced(st: TokenState, ls: Seq<Leaf>)
    ensures
        run_tokens(st, ls).replaced == st.replaced + masked_count(ls),
    decreases ls.len(),
{
    if ls.len() > 0 {
        lemma_run_replaced(st, ls.drop_last());
        assert(ls.drop_last().push(ls.last()) =~= ls);
        crate::sanitize::lemma_run_push(st, ls.drop_last(), ls.last());
    }
}

/// The replaced count is the number of masked values: every masked string
/// value is replaced, whether its token is new or reused.
pub proof fn law_replaced_counts_masked(v: Json, ps: Seq<(Seq<char>, Seq<char>)>)
    ensures
        sanitized_state(v, ps).replaced == masked_count(leaves(v, Seq::empty())),
{
    lemma_run_replaced(initial_state(ps), leaves(v, Seq::empty()));
}

/// No two tokens map to the same original value.
pub open spec fn one_to_one(m: Map<Seq<char>, Seq<char>>) -> bool {
    forall|a: Seq<char>, b: Seq<char>|
        #[trigger] m.contains_key(a) && #[trigger] m.contains_key(b) && m[a] == m[b] ==> a == b
}

/// Every original value of the mapping has a chosen token.
spec fn originals_chosen(st: TokenState) -> bool {
    forall|k: Seq<char>| #[trigger] st.entries.contains_key(k) ==> st.by_original.contains_key(st.entries[k])
}

proof fn lemma_run_one_to_one(st: TokenState, ls: Seq<Leaf>)
    requires
        consistent(st),
        one_to_one(st.entries),
        originals_chosen(st),
        st.next + ls.len() <= usize::MAX + 1,
    ensures
        one_to_one(run_tokens(st, ls).entries),
        originals_chosen(run_tokens(st, ls)),
    decreases ls.len(),
{
    if ls.len() > 0 {
        let init = ls.drop_last();
        let l = ls.last();
        lemma_run_one_to_one(st, init);
        lemma_run_facts(st, init);
        crate::sanitize::lemma_run_push(st, init, l);
        assert(init.push(l) =~= ls);
        let s0 = run_tokens(st, init);
        let s1 = token_step(s0, l);
        if should_mask(l.0, l.1) && !s0.by_original.contains_key(l.1) {
            let t = token_text(s0.next);
            crate::sanitize::lemma_token_index_of_token(s0.next);
            assert(!s0.entries.contains_key(t));
            assert forall|a: Seq<char>, b: Seq<char>|
                #[trigger] s1.entries.contains_key(a) && #[trigger] s1.entries.contains_key(b) && s1.entries[a]
                    == s1.entries[b] implies a == b by {
                if a != t && b == t {
                    assert(s0.entries.contains_key(a));
                    assert(s0.by_original.contains_key(s0.entries[a]));
                }
                if a == t && b != t {
                    assert(s0.entries.contains_key(b));
                    assert(s0.by_original.contains_key(s0.entries[b]));
                }
                if a != t && b != t {
                    assert(s0.entries.contains_key(a) && s0.entries.contains_key(b));
                }
            }
            assert forall|k: Seq<char>| #[trigger] s1.entries.contains_key(k) implies s1.by_original.contains_key(
                s1.entries[k],
            ) by {
                if k != t {
                    assert(s0.entries.contains_key(k));
                }
            }
        }
    }
}

/// The mapping stays one-to-one from one sanitization to the next. If no two
/// tokens of the starting mapping share an original value (as with an empty
/// mapping), the same holds of the returned mapping; the returned mapping
/// keeps every pair of the starting one; and each masked value is replaced by
/// the one token that maps to it. Feeding the returned mapping to the next
/// sanitization keeps all of this.
pub proof fn law_mapping_stays_one_to_one(v: Json, ps: Seq<(Seq<char>, Seq<char>)>)
    requires
        sorted(ps),
        sanitize_fits(v, ps),
        one_to_one(map_of(ps)),
    ensures
        one_to_one(sanitized_state(v, ps).entries),
        map_of(ps) <= sanitized_state(v, ps).entries,
        forall|e: Leaf| #[trigger]
            leaves(v, Seq::empty()).contains(e) && should_mask(e.0, e.1) ==> ({
                let st = sanitized_state(v, ps);
                let t = masked_with(st.by_original)(e.0, e.1);
                &&& st.entries.contains_key(t)
                &&& st.entries[t] == e.1
                &&& forall|k: Seq<char>| st.entries.contains_key(k) && st.entries[k] == e.1 ==> k == t
            }),
{
    let st0 = initial_state(ps);
    let ls = leaves(v, Seq::empty());
    let st = sanitized_state(v, ps);
    lemma_initial_consistent(ps);
    lemma_initial_prefix(ps, ps.len() as int);
    assert(ps.take(ps.len() as int) =~= ps);
    assert forall|k: Seq<char>| #[trigger] st0.entries.contains_key(k) implies st0.by_original.contains_key(
        st0.entries[k],
    ) by {
        let j = key_pos(ps, k);
        assert(ps[j].0 == k);
        lemma_map_of_at(ps, j);
        assert(exists|i: int| 0 <= i < ps.len() && ps[i].1 == st0.entries[k]);
    }
    lemma_run_facts(st0, ls);
    lemma_run_one_to_one(st0, ls);
    assert forall|e: Leaf| #[trigger] ls.contains(e) && should_mask(e.0, e.1) implies ({
        let t = masked_with(st.by_original)(e.0, e.1);
        &&& st.entries.contains_key(t)
        &&& st.entries[t] == e.1
        &&& forall|k: Seq<char>| st.entries.contains_key(k) && st.entries[k] == e.1 ==> k == t
    }) by {
        let t = masked_with(st.by_original)(e.0, e.1);
        assert(st.by_original.contains_key(e.1));
        assert(t == st.by_original[e.1]);
        assert forall|k: Seq<char>| st.entries.contains_key(k) && st.entries[k] == e.1 implies k == t by {
            assert(st.entries.contains_key(t) && st.entries[t] == st.entries[k]);
        }
    }
}

/// Tokens agree across sanitizations. Sanitizing a second document from the
/// mapping that sanitizing a first one returned (its pairs in token order),
/// starting from a one-to-one mapping: the mappings only grow, the last one
/// is one-to-one, and a masked value of the first document and one of the
/// second get the same token exactly when they are the same value.
pub proof fn law_tokens_agree_across_sanitizations(
    v1: Json,
    v2: Json,
    ps: Seq<(Seq<char>, Seq<char>)>,
    ps2: Seq<(Seq<char>, Seq<char>)>,
    e1: Leaf,
    e2: Leaf,
)
    requires
        sorted(ps),
        sanitize_fits(v1, ps),
        one_to_one(map_of(ps)),
        sorted(ps2),
        map_of(ps2) == sanitized_state(v1, ps).entries,
        sanitize_fits(v2, ps2),
        leaves(v1, Seq::empty()).contains(e1),
        should_mask(e1.0, e1.1),
        leaves(v2, Seq::empty()).contains(e2),
        should_mask(e2.0, e2.1),
    ensures
        ({
            let st1 = sanitized_state(v1, ps);
            let st2 = sanitized_state(v2, ps2);
            let t1 = masked_with(st1.by_original)(e1.0, e1.1);
            let t2 = masked_with(st2.by_original)(e2.0, e2.1);
            &&& map_of(ps) <= st1.entries
            &&& st1.entries <= st2.entries
            &&& one_to_one(st2.entries)
            &&& st2.entries.contains_key(t1) && st2.entries[t1] == e1.1
            &&& (t1 == t2 <==> e1.1 == e2.1)
        }),
{
    let st1 = sanitized_state(v1, ps);
    let st2 = sanitized_state(v2, ps2);
    law_mapping_stays_one_to_one(v1, ps);
    law_mapping_stays_one_to_one(v2, ps2);
    lemma_initial_consistent(ps2);
    lemma_run_facts(initial_state(ps2), leaves(v2, Seq::empty()));
    let t1 = masked_with(st1.by_original)(e1.0, e1.1);
    let t2 = masked_with(st2.by_original)(e2.0, e2.1);
    assert(st1.entries.contains_key(t1) && st1.entries[t1] == e1.1);
    assert(st2.entries.contains_key(t2) && st2.entries[t2] == e2.1);
    assert(st2.entries.contains_key(t1) && st2.entries[t1] == e1.1);
}

} // verus!
