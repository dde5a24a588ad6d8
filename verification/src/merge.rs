//! Merging one vault item into another: arrays gain the entries they lack,
//! empty fields take the other item's values, and values that would be
//! overwritten are kept as custom fields.
use vstd::prelude::*;

use crate::json::{
    find_member, is_empty, is_empty_value, json_eq, json_equal, key_index, lemma_key_index,
    lemma_model_array, lemma_model_object, member, member_models, models, Json, JsonNumber,
    JsonValue, Num, clone_json,
};
use crate::serial::{json_text, json_text_exec};
use crate::text::{decimal, fmt_decimal, owned, push_str, str_is};

verus! {

/// `a + b`, held at `usize::MAX` where it would pass it.
pub open spec fn sat_add(a: nat, b: nat) -> nat {
    if a + b > usize::MAX {
        usize::MAX as nat
    } else {
        a + b
    }
}

// ---------------------------------------------------------------------------
// Objects
/// `Map::insert`: the member of that name takes the value where it stands,
/// or a new member is appended.
pub open spec fn map_insert(ms: Seq<(Seq<char>, Json)>, key: Seq<char>, v: Json) -> Seq<(Seq<char>, Json)> {
    match key_index(ms, key) {
        Some(i) => ms.update(i, (key, v)),
        None => ms.push((key, v)),
    }
}

pub fn insert_member(ms: &mut Vec<(String, JsonValue)>, key: &str, v: JsonValue)
    ensures
        member_models(final(ms)@) == map_insert(member_models(old(ms)@), key@, v.model()),
{
    let ghost m0 = member_models(ms@);
    let ghost vm = v.model();
    proof {
        lemma_key_index(m0, key@);
    }
    match find_member(ms, key) {
        Some(i) => {
            let _old = ms.remove(i);
            ms.insert(i, (owned(key), v));
            assert(member_models(ms@) =~= m0.update(i as int, (key@, vm)));
        },
        None => {
            ms.push((owned(key), v));
            assert(member_models(ms@) =~= m0.push((key@, vm)));
        },
    }
}

fn empty_array() -> (r: JsonValue)
    ensures
        r.model() == Json::Array(Seq::empty()),
{
    let v: Vec<JsonValue> = Vec::new();
    proof {
        lemma_model_array(v);
        assert(models(v@) =~= Seq::<Json>::empty());
    }
    JsonValue::Array(v)
}

fn empty_object() -> (r: JsonValue)
    ensures
        r.model() == Json::Object(Seq::empty()),
{
    let v: Vec<(String, JsonValue)> = Vec::new();
    proof {
        lemma_model_object(v);
        assert(member_models(v@) =~= Seq::<(Seq<char>, Json)>::empty());
    }
    JsonValue::Object(v)
}

/// Whether some value of `xs` equals `y`.
pub open spec fn any_eq(xs: Seq<Json>, y: Json) -> bool
    decreases xs.len(),
{
    if xs.len() == 0 {
        false
    } else {
        any_eq(xs.drop_last(), y) || json_eq(xs.last(), y)
    }
}

fn contains_equal(xs: &Vec<JsonValue>, y: &JsonValue) -> (r: bool)
    ensures
        r == any_eq(models(xs@), y.model()),
{
    let ghost ms = models(xs@);
    let mut i: usize = 0;
    assert(ms.take(0) =~= Seq::<Json>::empty());
    while i < xs.len()
        invariant
            i <= xs@.len(),
            ms == models(xs@),
            !any_eq(ms.take(i as int), y.model()),
        decreases xs@.len() - i,
    {
        assert(ms.take(i + 1).drop_last() =~= ms.take(i as int));
        if json_equal(&xs[i], y) {
            proof {
                lemma_any_eq_prefix(ms, y.model(), i + 1);
            }
            return true;
        }
        i = i + 1;
    }
    assert(ms.take(i as int) =~= ms);
    false
}

proof fn lemma_any_eq_prefix(xs: Seq<Json>, y: Json, n: int)
    requires
        0 <= n <= xs.len(),
        any_eq(xs.take(n), y),
    ensures
        any_eq(xs, y),
    decreases xs.len() - n,
{
    if n < xs.len() {
        assert(xs.take(n + 1).drop_last() =~= xs.take(n));
        lemma_any_eq_prefix(xs, y, n + 1);
    } else {
        assert(xs.take(n) =~= xs);
    }
}

/// Appends each of `ys` that no value already there equals; also counts them.
pub open spec fn append_unique(acc: Seq<Json>, ys: Seq<Json>) -> (Seq<Json>, nat)
    decreases ys.len(),
{
    if ys.len() == 0 {
        (acc, 0)
    } else {
        let (a, c) = append_unique(acc, ys.drop_last());
        if any_eq(a, ys.last()) {
            (a, c)
        } else {
            (a.push(ys.last()), c + 1)
        }
    }
}

fn append_unique_exec(ta: &mut Vec<JsonValue>, sa: &Vec<JsonValue>) -> (c: usize)
    ensures
        (models(final(ta)@), c as nat) == append_unique(models(old(ta)@), models(sa@)),
{
    let ghost t0 = models(ta@);
    let ghost ys = models(sa@);
    let mut c: usize = 0;
    let mut i: usize = 0;
    assert(ys.take(0) =~= Seq::<Json>::empty());
    while i < sa.len()
        invariant
            i <= sa@.len(),
            ys == models(sa@),
            ta@.len() == t0.len() + c,
            (models(ta@), c as nat) == append_unique(t0, ys.take(i as int)),
        decreases sa@.len() - i,
    {
        assert(ys.take(i + 1).drop_last() =~= ys.take(i as int));
        if !contains_equal(ta, &sa[i]) {
            let ghost before = models(ta@);
            ta.push(clone_json(&sa[i]));
            assert(models(ta@) =~= before.push(ys[i as int]));
            let len_now = ta.len();
            assert(c + 1 <= len_now);
            c = c + 1;
        }
        i = i + 1;
    }
    assert(ys.take(i as int) =~= ys);
    c
}

/// `append_object_array`: the array `key` of the source appended to that of
/// the target, without entries the target's array already has; also how many
/// were appended.
pub open spec fn append_object_array(
    t: Seq<(Seq<char>, Json)>,
    s: Seq<(Seq<char>, Json)>,
    key: Seq<char>,
) -> (Seq<(Seq<char>, Json)>, nat) {
    match member(s, key) {
        Some(Json::Array(sa)) => if sa.len() == 0 {
            (t, 0)
        } else {
            let t1 = if key_index(t, key) is Some {
                t
            } else {
                map_insert(t, key, Json::Array(Seq::empty()))
            };
            match member(t1, key) {
                Some(Json::Array(ta)) => {
                    let (ta2, c) = append_unique(ta, sa);
                    (map_insert(t1, key, Json::Array(ta2)), c)
                },
                _ => (t1, 0),
            }
        },
        _ => (t, 0),
    }
}

fn append_object_array_exec(
    target: &mut Vec<(String, JsonValue)>,
    source: &Vec<(String, JsonValue)>,
    key: &str,
) -> (c: usize)
    ensures
        (member_models(final(target)@), c as nat) == append_object_array(
            member_models(old(target)@),
            member_models(source@),
            key@,
        ),
{
    let ghost t0 = member_models(target@);
    let ghost s = member_models(source@);
    proof {
        lemma_key_index(s, key@);
    }
    let sa = match find_member(source, key) {
        Some(j) => match &source[j].1 {
            JsonValue::Array(xs) => xs,
            _ => {
                return 0;
            },
        },
        None => {
            return 0;
        },
    };
    proof {
        lemma_model_array(*sa);
    }
    if sa.len() == 0 {
        return 0;
    }
    if find_member(target, key).is_none() {
        insert_member(target, key, empty_array());
    }
    let ghost t1 = member_models(target@);
    proof {
        lemma_key_index(t1, key@);
        if key_index(t0, key@) is None {
            lemma_key_index(t0, key@);
            assert(t1 == t0.push((key@, Json::Array(Seq::empty()))));
            assert(t1[t0.len() as int].0 == key@);
        }
    }
    match find_member(target, key) {
        Some(i) => {
            let (k, v) = target.remove(i);
            match v {
                JsonValue::Array(mut ta) => {
                    proof {
                        lemma_model_array(ta);
                    }
                    let c = append_unique_exec(&mut ta, sa);
                    let ghost tv = ta;
                    target.insert(i, (k, JsonValue::Array(ta)));
                    proof {
                        lemma_model_array(tv);
                        assert(member_models(target@) =~= t1.update(i as int, (key@, Json::Array(models(tv@)))));
                    }
                    c
                },
                other => {
                    target.insert(i, (k, other));
                    assert(member_models(target@) =~= t1);
                    0
                },
            }
        },
        None => 0,
    }
}

/// `merge_value_field`: the target's members after merging the source value
/// of `key`, and whether the source value was displaced (the target keeps a
/// different, non-empty value).
pub open spec fn merge_value_field(t: Seq<(Seq<char>, Json)>, key: Seq<char>, sv: Json) -> (Seq<(Seq<char>, Json)>, bool) {
    match member(t, key) {
        None => (map_insert(t, key, sv), false),
        Some(tv) => if json_eq(tv, sv) || is_empty(sv) {
            (t, false)
        } else if is_empty(tv) {
            (map_insert(t, key, sv), false)
        } else {
            (t, true)
        },
    }
}

fn merge_value_field_exec(target: &mut Vec<(String, JsonValue)>, key: &str, source_value: &JsonValue) -> (displaced: bool)
    ensures
        (member_models(final(target)@), displaced) == merge_value_field(
            member_models(old(target)@),
            key@,
            source_value.model(),
        ),
{
    proof {
        lemma_key_index(member_models(target@), key@);
    }
    match find_member(target, key) {
        None => {
            insert_member(target, key, clone_json(source_value));
            false
        },
        Some(i) => {
            if json_equal(&target[i].1, source_value) || is_empty_value(source_value) {
                false
            } else if is_empty_value(&target[i].1) {
                insert_member(target, key, clone_json(source_value));
                false
            } else {
                true
            }
        },
    }
}

/// `merge_favorite`: a favorite source makes the target a favorite.
pub open spec fn merge_favorite(t: Seq<(Seq<char>, Json)>, s: Seq<(Seq<char>, Json)>) -> Seq<(Seq<char>, Json)> {
    if member(s, "favorite"@) == Some(Json::Bool(true)) {
        map_insert(t, "favorite"@, Json::Bool(true))
    } else {
        t
    }
}

fn merge_favorite_exec(target: &mut Vec<(String, JsonValue)>, source: &Vec<(String, JsonValue)>)
    ensures
        member_models(final(target)@) == merge_favorite(member_models(old(target)@), member_models(source@)),
{
    proof {
        lemma_key_index(member_models(source@), "favorite"@);
    }
    match find_member(source, "favorite") {
        Some(j) => match &source[j].1 {
            JsonValue::Bool(b) => {
                if *b {
                    insert_member(target, "favorite", JsonValue::Bool(true));
                }
            },
            _ => {},
        },
        None => {},
    }
}

/// The text a preserved value is kept as: a string as it is, any other value
/// as compact JSON.
pub open spec fn field_text(v: Json) -> Seq<char> {
    match v {
        Json::Str(s) => s,
        _ => json_text(v),
    }
}

/// The custom field that keeps a displaced value: a text field named `name`.
pub open spec fn preserved_field(name: Seq<char>, v: Json) -> Json {
    Json::Object(
        seq![
            ("name"@, Json::Str(name)),
            ("value"@, Json::Str(field_text(v))),
            ("type"@, Json::Number(Num::PosInt(0))),
        ],
    )
}

/// `add_preserved_scalar_field`: a non-empty value kept as a custom field of
/// the target, unless an equal field is already there; also whether it was
/// added.
pub open spec fn add_preserved(t: Seq<(Seq<char>, Json)>, name: Seq<char>, v: Json) -> (Seq<(Seq<char>, Json)>, bool) {
    if is_empty(v) {
        (t, false)
    } else {
        let field = preserved_field(name, v);
        let t1 = if key_index(t, "fields"@) is Some {
            t
        } else {
            map_insert(t, "fields"@, Json::Array(Seq::empty()))
        };
        match member(t1, "fields"@) {
            Some(Json::Array(fs)) => if any_eq(fs, field) {
                (t1, false)
            } else {
                (map_insert(t1, "fields"@, Json::Array(fs.push(field))), true)
            },
            _ => (t1, false),
        }
    }
}

fn add_preserved_exec(target: &mut Vec<(String, JsonValue)>, name: String, value: &JsonValue) -> (added: bool)
    ensures
        (member_models(final(target)@), added) == add_preserved(member_models(old(target)@), name@, value.model()),
{
    let ghost t0 = member_models(target@);
    if is_empty_value(value) {
        return false;
    }
    let field_value = match value {
        JsonValue::String(s) => s.clone(),
        _ => json_text_exec(value),
    };
    let ghost fname = name@;
    let mut field: Vec<(String, JsonValue)> = Vec::new();
    field.push((owned("name"), JsonValue::String(name)));
    field.push((owned("value"), JsonValue::String(field_value)));
    field.push((owned("type"), JsonValue::Number(JsonNumber::PosInt(0))));
    let ghost fm = field;
    let field = JsonValue::Object(field);
    proof {
        lemma_model_object(fm);
        assert(member_models(fm@) =~= seq![
            ("name"@, Json::Str(fname)),
            ("value"@, Json::Str(field_text(value.model()))),
            ("type"@, Json::Number(Num::PosInt(0))),
        ]);
        assert(field.model() == preserved_field(fname, value.model()));
    }
    if find_member(target, "fields").is_none() {
        insert_member(target, "fields", empty_array());
    }
    let ghost t1 = member_models(target@);
    proof {
        lemma_key_index(t1, "fields"@);
        if key_index(t0, "fields"@) is None {
            lemma_key_index(t0, "fields"@);
            assert(t1[t0.len() as int].0 == "fields"@);
        }
    }
    match find_member(target, "fields") {
        Some(i) => {
            let (k, v) = target.remove(i);
            match v {
                JsonValue::Array(mut fs) => {
                    proof {
                        lemma_model_array(fs);
                    }
                    if contains_equal(&fs, &field) {
                        let ghost fv = fs;
                        target.insert(i, (k, JsonValue::Array(fs)));
                        proof {
                            lemma_model_array(fv);
                            assert(member_models(target@) =~= t1);
                        }
                        false
                    } else {
                        let ghost before = models(fs@);
                        let ghost fm = field.model();
                        fs.push(field);
                        assert(models(fs@) =~= before.push(fm));
                        let ghost fv = fs;
                        target.insert(i, (k, JsonValue::Array(fs)));
                        proof {
                            lemma_model_array(fv);
                            assert(member_models(target@) =~= t1.update(i as int, ("fields"@, Json::Array(models(fv@)))));
                        }
                        true
                    }
                },
                other => {
                    target.insert(i, (k, other));
                    assert(member_models(target@) =~= t1);
                    false
                },
            }
        },
        None => false,
    }
}

// ---------------------------------------------------------------------------
// Items
/// Counts of one item merge.
#[derive(Debug, Clone)]
pub struct ItemMergeReport {
    pub appended_login_uris: usize,
    pub appended_fields: usize,
    pub appended_password_history_entries: usize,
    pub appended_fido2_credentials: usize,
    pub appended_collection_ids: usize,
    pub preserved_scalar_values_as_fields: usize,
}

pub struct ItemCounts {
    pub login_uris: nat,
    pub fields: nat,
    pub history: nat,
    pub fido2: nat,
    pub collection_ids: nat,
    pub preserved: nat,
}

impl ItemMergeReport {
    pub open spec fn model(&self) -> ItemCounts {
        ItemCounts {
            login_uris: self.appended_login_uris as nat,
            fields: self.appended_fields as nat,
            history: self.appended_password_history_entries as nat,
            fido2: self.appended_fido2_credentials as nat,
            collection_ids: self.appended_collection_ids as nat,
            preserved: self.preserved_scalar_values_as_fields as nat,
        }
    }
}

pub open spec fn no_counts() -> ItemCounts {
    ItemCounts { login_uris: 0, fields: 0, history: 0, fido2: 0, collection_ids: 0, preserved: 0 }
}

/// A value kept as a field counts as an appended field and a preserved value.
pub open spec fn count_preserved(c: ItemCounts) -> ItemCounts {
    ItemCounts {
        login_uris: c.login_uris,
        fields: sat_add(c.fields, 1),
        history: c.history,
        fido2: c.fido2,
        collection_ids: c.collection_ids,
        preserved: sat_add(c.preserved, 1),
    }
}

/// The members of the target item and the counts so far.
pub struct ItemState {
    pub ms: Seq<(Seq<char>, Json)>,
    pub counts: ItemCounts,
}

/// Keeps a displaced value as a field.
pub open spec fn preserve(st: ItemState, name: Seq<char>, v: Json) -> ItemState {
    let (ms, added) = add_preserved(st.ms, name, v);
    ItemState {
        ms,
        counts: if added {
            count_preserved(st.counts)
        } else {
            st.counts
        },
    }
}

/// Keeps each displaced value, in order.
pub open spec fn preserve_all(st: ItemState, disp: Seq<(Seq<char>, Json)>) -> ItemState
    decreases disp.len(),
{
    if disp.len() == 0 {
        st
    } else {
        let d = disp.last();
        preserve(preserve_all(st, disp.drop_last()), d.0, d.1)
    }
}

/// Names of the fields that keep displaced values.
pub open spec fn login_name(idx: nat, key: Seq<char>) -> Seq<char> {
    "merged item #"@ + decimal(idx) + " login."@ + key
}

pub open spec fn notes_name(idx: nat) -> Seq<char> {
    "merged item #"@ + decimal(idx) + " notes"@
}

pub open spec fn member_name(idx: nat, key: Seq<char>) -> Seq<char> {
    "merged item #"@ + decimal(idx) + " "@ + key
}

/// The first `k` source login members other than `uris` and
/// `fido2Credentials` merged into the target login; also the displaced
/// values with the names of the fields that keep them.
pub open spec fn login_fields(
    t: Seq<(Seq<char>, Json)>,
    sl: Seq<(Seq<char>, Json)>,
    idx: nat,
    k: int,
) -> (Seq<(Seq<char>, Json)>, Seq<(Seq<char>, Json)>)
    decreases k,
{
    if k <= 0 {
        (t, Seq::empty())
    } else {
        let (t1, d) = login_fields(t, sl, idx, k - 1);
        let key = sl[k - 1].0;
        let sv = sl[k - 1].1;
        if key == "uris"@ || key == "fido2Credentials"@ {
            (t1, d)
        } else {
            let (t2, displaced) = merge_value_field(t1, key, sv);
            (
                t2,
                if displaced {
                    d.push((login_name(idx, key), sv))
                } else {
                    d
                },
            )
        }
    }
}

/// `merge_login`: the merged login, the numbers of URIs and passkeys
/// appended, and the displaced values.
pub open spec fn merge_login(tl: Seq<(Seq<char>, Json)>, sl: Seq<(Seq<char>, Json)>, idx: nat) -> (
    Seq<(Seq<char>, Json)>,
    nat,
    nat,
    Seq<(Seq<char>, Json)>,
) {
    let (t1, cu) = append_object_array(tl, sl, "uris"@);
    let (t2, cf) = append_object_array(t1, sl, "fido2Credentials"@);
    let (t3, disp) = login_fields(t2, sl, idx, sl.len() as int);
    (t3, cu, cf, disp)
}

/// The login of the source merged into that of the target.
pub open spec fn login_step(st: ItemState, s: Seq<(Seq<char>, Json)>, idx: nat) -> ItemState {
    match member(s, "login"@) {
        Some(Json::Object(sl)) => {
            let t1 = if key_index(st.ms, "login"@) is Some {
                st.ms
            } else {
                map_insert(st.ms, "login"@, Json::Object(Seq::empty()))
            };
            match member(t1, "login"@) {
                Some(Json::Object(tl)) => {
                    let (tl2, cu, cf, disp) = merge_login(tl, sl, idx);
                    let c = st.counts;
                    preserve_all(
                        ItemState {
                            ms: map_insert(t1, "login"@, Json::Object(tl2)),
                            counts: ItemCounts {
                                login_uris: sat_add(c.login_uris, cu),
                                fields: c.fields,
                                history: c.history,
                                fido2: sat_add(c.fido2, cf),
                                collection_ids: c.collection_ids,
                                preserved: c.preserved,
                            },
                        },
                        disp,
                    )
                },
                _ => ItemState { ms: t1, counts: st.counts },
            }
        },
        _ => st,
    }
}

/// The arrays `fields`, `passwordHistory` and `collectionIds` appended.
pub open spec fn arrays_step(st: ItemState, s: Seq<(Seq<char>, Json)>) -> ItemState {
    let (m1, c1) = append_object_array(st.ms, s, "fields"@);
    let (m2, c2) = append_object_array(m1, s, "passwordHistory"@);
    let (m3, c3) = append_object_array(m2, s, "collectionIds"@);
    let c = st.counts;
    ItemState {
        ms: m3,
        counts: ItemCounts {
            login_uris: c.login_uris,
            fields: sat_add(c.fields, c1),
            history: sat_add(c.history, c2),
            fido2: c.fido2,
            collection_ids: sat_add(c.collection_ids, c3),
            preserved: c.preserved,
        },
    }
}

/// The source's notes merged; displaced notes kept as a field.
pub open spec fn notes_step(st: ItemState, s: Seq<(Seq<char>, Json)>, idx: nat) -> ItemState {
    match member(s, "notes"@) {
        Some(sn) => {
            let (m, displaced) = merge_value_field(st.ms, "notes"@, sn);
            let st2 = ItemState { ms: m, counts: st.counts };
            if displaced {
                preserve(st2, notes_name(idx), sn)
            } else {
                st2
            }
        },
        None => st,
    }
}

/// `is_top_level_merge_key`: members that are merged on their own.
pub open spec fn is_top_level_merge_key(key: Seq<char>) -> bool {
    ||| key == "login"@
    ||| key == "fields"@
    ||| key == "passwordHistory"@
    ||| key == "collectionIds"@
    ||| key == "notes"@
    ||| key == "favorite"@
}

/// `is_item_metadata_key`: members that belong to the item itself and are
/// never merged.
pub open spec fn is_item_metadata_key(key: Seq<char>) -> bool {
    ||| key == "id"@
    ||| key == "organizationId"@
    ||| key == "folderId"@
    ||| key == "collectionId"@
    ||| key == "object"@
    ||| key == "type"@
    ||| key == "reprompt"@
    ||| key == "creationDate"@
    ||| key == "revisionDate"@
    ||| key == "deletedDate"@
    ||| key == "lastUsedDate"@
    ||| key == "name"@
}

/// The first `k` other source members merged; displaced values kept as
/// fields.
pub open spec fn other_members(st: ItemState, s: Seq<(Seq<char>, Json)>, idx: nat, k: int) -> ItemState
    decreases k,
{
    if k <= 0 {
        st
    } else {
        let st1 = other_members(st, s, idx, k - 1);
        let key = s[k - 1].0;
        let sv = s[k - 1].1;
        if is_top_level_merge_key(key) || is_item_metadata_key(key) {
            st1
        } else {
            let (m, displaced) = merge_value_field(st1.ms, key, sv);
            let st2 = ItemState { ms: m, counts: st1.counts };
            if displaced {
                preserve(st2, member_name(idx, key), sv)
            } else {
                st2
            }
        }
    }
}

/// Merging the members of the source item into those of the target.
pub open spec fn merge_members(t: Seq<(Seq<char>, Json)>, s: Seq<(Seq<char>, Json)>, idx: nat) -> ItemState {
    let st1 = login_step(ItemState { ms: t, counts: no_counts() }, s, idx);
    let st2 = arrays_step(st1, s);
    let st3 = ItemState { ms: merge_favorite(st2.ms, s), counts: st2.counts };
    let st4 = notes_step(st3, s, idx);
    other_members(st4, s, idx, s.len() as int)
}

/// `merge_item`: the target after merging the source item numbered `idx`
/// into it, and the counts; a target or source that is not an object leaves
/// the target as it is.
pub open spec fn merge_item(target: Json, source: Json, idx: nat) -> (Json, ItemCounts) {
    match target {
        Json::Object(t) => match source {
            Json::Object(s) => {
                let st = merge_members(t, s, idx);
                (Json::Object(st.ms), st.counts)
            },
            _ => (target, no_counts()),
        },
        _ => (target, no_counts()),
    }
}

pub open spec fn item_state(ms: Seq<(String, JsonValue)>, r: ItemMergeReport) -> ItemState {
    ItemState { ms: member_models(ms), counts: r.model() }
}

fn preserve_exec(target: &mut Vec<(String, JsonValue)>, name: String, value: &JsonValue, report: &mut ItemMergeReport)
    ensures
        item_state(final(target)@, *final(report)) == preserve(item_state(old(target)@, *old(report)), name@, value.model()),
{
    if add_preserved_exec(target, name, value) {
        report.appended_fields = report.appended_fields.saturating_add(1);
        report.preserved_scalar_values_as_fields = report.preserved_scalar_values_as_fields.saturating_add(1);
    }
}

fn preserve_all_exec(target: &mut Vec<(String, JsonValue)>, displaced: &Vec<(String, JsonValue)>, report: &mut ItemMergeReport)
    ensures
        item_state(final(target)@, *final(report)) == preserve_all(
            item_state(old(target)@, *old(report)),
            member_models(displaced@),
        ),
{
    let ghost st0 = item_state(target@, *report);
    let ghost ds = member_models(displaced@);
    let mut i: usize = 0;
    assert(ds.take(0) =~= Seq::<(Seq<char>, Json)>::empty());
    while i < displaced.len()
        invariant
            i <= displaced@.len(),
            ds == member_models(displaced@),
            item_state(target@, *report) == preserve_all(st0, ds.take(i as int)),
        decreases displaced@.len() - i,
    {
        assert(ds.take(i + 1).drop_last() =~= ds.take(i as int));
        preserve_exec(target, displaced[i].0.clone(), &displaced[i].1, report);
        i = i + 1;
    }
    assert(ds.take(i as int) =~= ds);
}

/// The name `merged item #<index><middle><key>`.
fn field_name(idx: usize, middle: &str, key: &str) -> (r: String)
    ensures
        r@ == "merged item #"@ + decimal(idx as nat) + middle@ + key@,
{
    let mut r = owned("merged item #");
    let d = fmt_decimal(idx as u64);
    push_str(&mut r, d.as_str());
    push_str(&mut r, middle);
    push_str(&mut r, key);
    r
}

/// `merge_login`: merges the source login into the target login and returns
/// the displaced values with the names of the fields that will keep them.
fn merge_login_exec(
    target_login: &mut Vec<(String, JsonValue)>,
    source_login: &Vec<(String, JsonValue)>,
    source_index: usize,
    report: &mut ItemMergeReport,
) -> (displaced: Vec<(String, JsonValue)>)
    ensures
        ({
            let (t3, cu, cf, disp) = merge_login(
                member_models(old(target_login)@),
                member_models(source_login@),
                source_index as nat,
            );
            let c = old(report).model();
            &&& member_models(final(target_login)@) == t3
            &&& member_models(displaced@) == disp
            &&& final(report).model() == ItemCounts {
                login_uris: sat_add(c.login_uris, cu),
                fields: c.fields,
                history: c.history,
                fido2: sat_add(c.fido2, cf),
                collection_ids: c.collection_ids,
                preserved: c.preserved,
            }
        }),
{
    let ghost sl = member_models(source_login@);
    let cu = append_object_array_exec(target_login, source_login, "uris");
    report.appended_login_uris = report.appended_login_uris.saturating_add(cu);
    let cf = append_object_array_exec(target_login, source_login, "fido2Credentials");
    report.appended_fido2_credentials = report.appended_fido2_credentials.saturating_add(cf);
    let ghost t2 = member_models(target_login@);
    let mut displaced: Vec<(String, JsonValue)> = Vec::new();
    let mut k: usize = 0;
    assert(member_models(displaced@) =~= Seq::<(Seq<char>, Json)>::empty());
    while k < source_login.len()
        invariant
            k <= source_login@.len(),
            sl == member_models(source_login@),
            (member_models(target_login@), member_models(displaced@)) == login_fields(
                t2,
                sl,
                source_index as nat,
                k as int,
            ),
        decreases source_login@.len() - k,
    {
        let key = source_login[k].0.as_str();
        let sv = &source_login[k].1;
        assert(sl[k as int] == (key@, sv.model()));
        if !str_is(key, "uris") && !str_is(key, "fido2Credentials") {
            if merge_value_field_exec(target_login, key, sv) {
                let name = field_name(source_index, " login.", key);
                let ghost before = member_models(displaced@);
                displaced.push((name, clone_json(sv)));
                assert(member_models(displaced@) =~= before.push((login_name(source_index as nat, key@), sv.model())));
            }
        }
        k = k + 1;
    }
    displaced
}

fn login_step_exec(
    target: &mut Vec<(String, JsonValue)>,
    source: &Vec<(String, JsonValue)>,
    source_index: usize,
    report: &mut ItemMergeReport,
)
    ensures
        item_state(final(target)@, *final(report)) == login_step(
            item_state(old(target)@, *old(report)),
            member_models(source@),
            source_index as nat,
        ),
{
    let ghost t0 = member_models(target@);
    proof {
        lemma_key_index(member_models(source@), "login"@);
    }
    let sl = match find_member(source, "login") {
        Some(j) => match &source[j].1 {
            JsonValue::Object(sl) => sl,
            _ => {
                return;
            },
        },
        None => {
            return;
        },
    };
    proof {
        lemma_model_object(*sl);
    }
    if find_member(target, "login").is_none() {
        insert_member(target, "login", empty_object());
    }
    let ghost t1 = member_models(target@);
    proof {
        lemma_key_index(t1, "login"@);
        if key_index(t0, "login"@) is None {
            lemma_key_index(t0, "login"@);
            assert(t1[t0.len() as int].0 == "login"@);
        }
    }
    match find_member(target, "login") {
        Some(i) => {
            let (k, v) = target.remove(i);
            match v {
                JsonValue::Object(mut tl) => {
                    proof {
                        lemma_model_object(tl);
                    }
                    let displaced = merge_login_exec(&mut tl, sl, source_index, report);
                    let ghost tv = tl;
                    target.insert(i, (k, JsonValue::Object(tl)));
                    proof {
                        lemma_model_object(tv);
                        assert(member_models(target@) =~= t1.update(
                            i as int,
                            ("login"@, Json::Object(member_models(tv@))),
                        ));
                    }
                    preserve_all_exec(target, &displaced, report);
                },
                other => {
                    target.insert(i, (k, other));
                    assert(member_models(target@) =~= t1);
                },
            }
        },
        None => {},
    }
}

fn arrays_step_exec(target: &mut Vec<(String, JsonValue)>, source: &Vec<(String, JsonValue)>, report: &mut ItemMergeReport)
    ensures
        item_state(final(target)@, *final(report)) == arrays_step(
            item_state(old(target)@, *old(report)),
            member_models(source@),
        ),
{
    let c1 = append_object_array_exec(target, source, "fields");
    report.appended_fields = report.appended_fields.saturating_add(c1);
    let c2 = append_object_array_exec(target, source, "passwordHistory");
    report.appended_password_history_entries = report.appended_password_history_entries.saturating_add(c2);
    let c3 = append_object_array_exec(target, source, "collectionIds");
    report.appended_collection_ids = report.appended_collection_ids.saturating_add(c3);
}

fn notes_step_exec(
    target: &mut Vec<(String, JsonValue)>,
    source: &Vec<(String, JsonValue)>,
    source_index: usize,
    report: &mut ItemMergeReport,
)
    ensures
        item_state(final(target)@, *final(report)) == notes_step(
            item_state(old(target)@, *old(report)),
            member_models(source@),
            source_index as nat,
        ),
{
    proof {
        lemma_key_index(member_models(source@), "notes"@);
    }
    match find_member(source, "notes") {
        Some(j) => {
            let sn = &source[j].1;
            if merge_value_field_exec(target, "notes", sn) {
                let name = field_name(source_index, " notes", "");
                proof {
                    reveal_strlit("");
                }
                assert(name@ =~= notes_name(source_index as nat));
                preserve_exec(target, name, sn, report);
            }
        },
        None => {},
    }
}

fn is_top_level_merge_key_exec(key: &str) -> (r: bool)
    ensures
        r == is_top_level_merge_key(key@),
{
    str_is(key, "login") || str_is(key, "fields") || str_is(key, "passwordHistory") || str_is(key, "collectionIds")
        || str_is(key, "notes") || str_is(key, "favorite")
}

fn is_item_metadata_key_exec(key: &str) -> (r: bool)
    ensures
        r == is_item_metadata_key(key@),
{
    str_is(key, "id") || str_is(key, "organizationId") || str_is(key, "folderId") || str_is(key, "collectionId")
        || str_is(key, "object") || str_is(key, "type") || str_is(key, "reprompt") || str_is(key, "creationDate")
        || str_is(key, "revisionDate") || str_is(key, "deletedDate") || str_is(key, "lastUsedDate") || str_is(
        key,
        "name",
    )
}

fn other_members_exec(
    target: &mut Vec<(String, JsonValue)>,
    source: &Vec<(String, JsonValue)>,
    source_index: usize,
    report: &mut ItemMergeReport,
)
    ensures
        item_state(final(target)@, *final(report)) == other_members(
            item_state(old(target)@, *old(report)),
            member_models(source@),
            source_index as nat,
            source@.len() as int,
        ),
{
    let ghost st0 = item_state(target@, *report);
    let ghost s = member_models(source@);
    let mut k: usize = 0;
    while k < source.len()
        invariant
            k <= source@.len(),
            s == member_models(source@),
            item_state(target@, *report) == other_members(st0, s, source_index as nat, k as int),
        decreases source@.len() - k,
    {
        let key = source[k].0.as_str();
        let sv = &source[k].1;
        assert(s[k as int] == (key@, sv.model()));
        if !is_top_level_merge_key_exec(key) && !is_item_metadata_key_exec(key) {
            if merge_value_field_exec(target, key, sv) {
                let name = field_name(source_index, " ", key);
                preserve_exec(target, name, sv, report);
            }
        }
        k = k + 1;
    }
}

/// `merge_item`: merges the source item, numbered `source_index`, into the
/// target item and returns the counts.
pub fn merge_item_exec(target: &mut JsonValue, source: &JsonValue, source_index: usize) -> (r: ItemMergeReport)
    ensures
        (final(target).model(), r.model()) == merge_item(old(target).model(), source.model(), source_index as nat),
{
    let mut report = ItemMergeReport {
        appended_login_uris: 0,
        appended_fields: 0,
        appended_password_history_entries: 0,
        appended_fido2_credentials: 0,
        appended_collection_ids: 0,
        preserved_scalar_values_as_fields: 0,
    };
    let mut owned_target = JsonValue::Null;
    std::mem::swap(&mut owned_target, target);
    match owned_target {
        JsonValue::Object(mut t) => {
            match source {
                JsonValue::Object(s) => {
                    proof {
                        lemma_model_object(t);
                        lemma_model_object(*s);
                    }
                    login_step_exec(&mut t, s, source_index, &mut report);
                    arrays_step_exec(&mut t, s, &mut report);
                    merge_favorite_exec(&mut t, s);
                    notes_step_exec(&mut t, s, source_index, &mut report);
                    other_members_exec(&mut t, s, source_index, &mut report);
                    let ghost tv = t;
                    *target = JsonValue::Object(t);
                    proof {
                        lemma_model_object(tv);
                    }
                },
                _ => {
                    *target = JsonValue::Object(t);
                },
            }
        },
        other => {
            *target = other;
        },
    }
    report
}

} // verus!
