//! Reversible sanitization: sensitive string values are replaced by stable
//! tokens, and a mapping from tokens back to the original values is kept.
use vstd::prelude::*;

use crate::json::{lemma_model_array, lemma_model_object, member_models, models, Json, JsonValue};
use crate::strmap::{
    find_key, has_key, insert_sorted, key_pos, lemma_map_of_at, map_of,
    pairs, sorted,
};
use crate::text::{
    all_digits, decimal, digit_char, digit_value, digits_value, fmt_zero_padded, has_prefix, has_suffix,
    lemma_decimal_len, owned, parse_unsigned, push_str, str_is, unsigned_digits, zero_padded,
};
use crate::text::{chars_of, ends_with, parse_usize, slice_chars, starts_with};
use crate::tree::{
    item_leaves, lemma_flatten_contains, lemma_flatten_take, lemma_map_strings_agree,
    lemma_map_strings_array, lemma_map_strings_object, leaves, map_strings, member_leaves, Leaf,
};

verus! {

// ---------------------------------------------------------------------------
// Tokens
/// Text before the number of a token.
pub open spec fn token_prefix() -> Seq<char> {
    "__BW_MAP_"@
}

/// Text after the number of a token.
pub open spec fn token_suffix() -> Seq<char> {
    "__"@
}

/// The token with number `n`: `__BW_MAP_` and `n` zero-padded to six digits,
/// then `__`.
pub open spec fn token_text(n: nat) -> Seq<char> {
    token_prefix() + zero_padded(n, 6) + token_suffix()
}

/// The number of a token: what lies between `__BW_MAP_` and `__`, read as a
/// `usize`.
pub open spec fn token_index(s: Seq<char>) -> Option<nat> {
    if has_prefix(s, token_prefix()) {
        let rest = s.skip(token_prefix().len() as int);
        if has_suffix(rest, token_suffix()) {
            parse_unsigned(rest.take(rest.len() - token_suffix().len()), usize::MAX as nat)
        } else {
            None
        }
    } else {
        None
    }
}

/// `parse_token_index`.
pub fn parse_token_index(token: &str) -> (r: Option<usize>)
    ensures
        r matches Some(n) ==> token_index(token@) == Some(n as nat),
        r is None ==> token_index(token@) is None,
{
    let s = chars_of(token);
    let prefix = chars_of("__BW_MAP_");
    let suffix = chars_of("__");
    if !starts_with(s.as_slice(), prefix.as_slice()) {
        return None;
    }
    let rest = slice_chars(s.as_slice(), prefix.len(), s.len());
    assert(rest@ =~= s@.skip(prefix@.len() as int));
    if !ends_with(rest.as_slice(), suffix.as_slice()) {
        return None;
    }
    let digits = slice_chars(rest.as_slice(), 0, rest.len() - suffix.len());
    assert(digits@ =~= rest@.take(rest@.len() - suffix@.len()));
    parse_usize(digits.as_slice())
}

pub proof fn lemma_zeros_value(k: nat, d: Seq<char>)
    ensures
        digits_value(Seq::new(k, |i: int| '0') + d) == digits_value(d),
    decreases d.len(), k,
{
    let z = Seq::new(k, |i: int| '0');
    if d.len() == 0 {
        assert(z + d =~= z);
        if k > 0 {
            let z1 = Seq::new((k - 1) as nat, |i: int| '0');
            assert(z.drop_last() =~= z1 + Seq::<char>::empty());
            lemma_zeros_value((k - 1) as nat, Seq::empty());
            assert(z1 + Seq::<char>::empty() =~= z1);
        }
    } else {
        assert((z + d).drop_last() =~= z + d.drop_last());
        lemma_zeros_value(k, d.drop_last());
    }
}

pub proof fn lemma_decimal_value(n: nat)
    ensures
        all_digits(decimal(n)),
        digits_value(decimal(n)) == n,
        decimal(n)[0] != '+',
    decreases n,
{
    lemma_decimal_len(n);
    assert(digit_value(digit_char(n % 10)) == n % 10);
    if n >= 10 {
        lemma_decimal_value(n / 10);
        lemma_decimal_len(n / 10);
        assert(decimal(n).drop_last() =~= decimal(n / 10));
        assert(decimal(n)[0] == decimal(n / 10)[0]);
        assert(digits_value(decimal(n)) == digits_value(decimal(n / 10)) * 10 + n % 10);
        assert((n / 10) * 10 + n % 10 == n) by (nonlinear_arith);
    } else {
        assert(decimal(n).drop_last() =~= Seq::<char>::empty());
        assert(n % 10 == n);
        assert(digits_value(decimal(n)) == digits_value(Seq::<char>::empty()) * 10 + digit_value(digit_char(n)));
    }
}

pub proof fn lemma_token_index_of_token(n: nat)
    requires
        n <= usize::MAX,
    ensures
        token_index(token_text(n)) == Some(n),
{
    reveal_strlit("__BW_MAP_");
    reveal_strlit("__");
    let z = zero_padded(n, 6);
    let t = token_text(n);
    lemma_decimal_value(n);
    lemma_decimal_len(n);
    let d = decimal(n);
    if d.len() < 6 {
        lemma_zeros_value((6 - d.len()) as nat, d);
        assert(z[0] == '0');
    } else {
        assert(z == d);
    }
    assert(all_digits(z));
    assert(digits_value(z) == n);
    assert(t.take(token_prefix().len() as int) =~= token_prefix());
    let rest = t.skip(token_prefix().len() as int);
    assert(rest =~= z + token_suffix());
    assert(rest.skip(rest.len() - token_suffix().len()) =~= token_suffix());
    assert(rest.take(rest.len() - token_suffix().len()) =~= z);
    assert(unsigned_digits(z) == z);
}

// ---------------------------------------------------------------------------
// Which values are masked
/// Keys whose string values are record metadata, never masked.
pub open spec fn is_metadata_key(key: Seq<char>) -> bool {
    ||| key == "id"@
    ||| key == "organizationId"@
    ||| key == "folderId"@
    ||| key == "collectionId"@
    ||| key == "object"@
    ||| key == "type"@
    ||| key == "reprompt"@
    ||| key == "creationDate"@
    ||| key == "revisionDate"@
    ||| key == "deletedDate"@
    ||| key == "lastUsedDate"@
}

pub open spec fn path_is2(path: Seq<Seq<char>>, a: Seq<char>, b: Seq<char>) -> bool {
    path.len() == 2 && path[0] == a && path[1] == b
}

pub open spec fn path_is3(path: Seq<Seq<char>>, a: Seq<char>, b: Seq<char>, c: Seq<char>) -> bool {
    path.len() == 3 && path[0] == a && path[1] == b && path[2] == c
}

pub open spec fn path_is4(
    path: Seq<Seq<char>>,
    a: Seq<char>,
    b: Seq<char>,
    c: Seq<char>,
    d: Seq<char>,
) -> bool {
    path.len() == 4 && path[0] == a && path[1] == b && path[2] == c && path[3] == d
}

/// Values kept readable: those outside any object key, metadata, and the
/// fields used to recognize duplicates (folder and item names, login URIs,
/// card numbers, custom field names, collection ids).
pub open spec fn should_preserve(path: Seq<Seq<char>>) -> bool {
    ||| path.len() == 0
    ||| is_metadata_key(path.last())
    ||| path_is2(path, "folders"@, "name"@)
    ||| path_is2(path, "items"@, "name"@)
    ||| path_is4(path, "items"@, "login"@, "uris"@, "uri"@)
    ||| path_is3(path, "items"@, "card"@, "number"@)
    ||| path_is3(path, "items"@, "fields"@, "name"@)
    ||| path_is2(path, "items"@, "collectionIds"@)
}

/// A non-empty string under `items` that is not preserved is masked.
pub open spec fn should_mask(path: Seq<Seq<char>>, text: Seq<char>) -> bool {
    &&& text.len() > 0
    &&& !should_preserve(path)
    &&& path.len() > 0
    &&& path[0] == "items"@
}

// ---------------------------------------------------------------------------
// The token state threaded through a sanitization
/// What a sanitization has built so far: the mapping from tokens to original
/// values, the token chosen for each original value, the next token number,
/// and how many values were replaced.
pub struct TokenState {
    pub entries: Map<Seq<char>, Seq<char>>,
    pub by_original: Map<Seq<char>, Seq<char>>,
    pub next: nat,
    pub replaced: nat,
}

/// One string value met in document order: a masked value that already has a
/// token reuses it; a new one gets the next token.
pub open spec fn token_step(st: TokenState, leaf: Leaf) -> TokenState {
    let (path, text) = leaf;
    if !should_mask(path, text) {
        st
    } else if st.by_original.contains_key(text) {
        TokenState { replaced: st.replaced + 1, ..st }
    } else {
        let token = token_text(st.next);
        TokenState {
            entries: st.entries.insert(token, text),
            by_original: st.by_original.insert(text, token),
            next: st.next + 1,
            replaced: st.replaced + 1,
        }
    }
}

/// The state after meeting the string values `ls` in order.
pub open spec fn run_tokens(st: TokenState, ls: Seq<Leaf>) -> TokenState {
    ls.fold_left(st, |s: TokenState, l: Leaf| token_step(s, l))
}

/// The document with each masked value replaced by its token.
pub open spec fn masked_with(by_original: Map<Seq<char>, Seq<char>>) -> spec_fn(
    Seq<Seq<char>>,
    Seq<char>,
) -> Seq<char> {
    |p: Seq<Seq<char>>, s: Seq<char>|
        if should_mask(p, s) && by_original.contains_key(s) {
            by_original[s]
        } else {
            s
        }
}

/// A state whose tokens map back to their originals and whose next token
/// number is above every token number in use.
pub open spec fn consistent(st: TokenState) -> bool {
    &&& forall|s: Seq<char>| #[trigger]
        st.by_original.contains_key(s) ==> st.entries.contains_key(st.by_original[s])
            && st.entries[st.by_original[s]] == s
    &&& forall|k: Seq<char>| #[trigger]
        st.entries.contains_key(k) ==> (token_index(k) matches Some(i) ==> i < st.next)
}

pub proof fn lemma_run_push(st: TokenState, ls: Seq<Leaf>, l: Leaf)
    ensures
        run_tokens(st, ls.push(l)) == token_step(run_tokens(st, ls), l),
{
    assert(ls.push(l).drop_last() =~= ls);
}

pub proof fn lemma_run_concat(st: TokenState, a: Seq<Leaf>, b: Seq<Leaf>)
    ensures
        run_tokens(st, a + b) == run_tokens(run_tokens(st, a), b),
    decreases b.len(),
{
    if b.len() == 0 {
        assert(a + b =~= a);
    } else {
        lemma_run_concat(st, a, b.drop_last());
        assert((a + b).drop_last() =~= a + b.drop_last());
        lemma_run_push(st, a + b.drop_last(), b.last());
        lemma_run_push(run_tokens(st, a), b.drop_last(), b.last());
        assert(b.drop_last().push(b.last()) =~= b);
        assert((a + b.drop_last()).push(b.last()) =~= a + b);
    }
}

/// What a run keeps and establishes: consistency, earlier tokens, a token for
/// every masked value met, and bounded growth of the counters.
pub proof fn lemma_run_facts(st: TokenState, ls: Seq<Leaf>)
    requires
        consistent(st),
        st.next + ls.len() <= usize::MAX + 1,
    ensures
        consistent(run_tokens(st, ls)),
        st.by_original <= run_tokens(st, ls).by_original,
        st.entries <= run_tokens(st, ls).entries,
        forall|e: Leaf| #[trigger]
            ls.contains(e) && should_mask(e.0, e.1) ==> run_tokens(
                st,
                ls,
            ).by_original.contains_key(e.1),
        run_tokens(st, ls).next <= st.next + ls.len(),
        run_tokens(st, ls).next >= st.next,
        run_tokens(st, ls).replaced <= st.replaced + ls.len(),
        run_tokens(st, ls).replaced >= st.replaced,
    decreases ls.len(),
{
    if ls.len() > 0 {
        let init = ls.drop_last();
        let l = ls.last();
        lemma_run_facts(st, init);
        lemma_run_push(st, init, l);
        assert(init.push(l) =~= ls);
        let s0 = run_tokens(st, init);
        let s1 = token_step(s0, l);
        if should_mask(l.0, l.1) && !s0.by_original.contains_key(l.1) {
            let t = token_text(s0.next);
            lemma_token_index_of_token(s0.next);
            assert(!s0.entries.contains_key(t));
            assert forall|s: Seq<char>| #[trigger] s1.by_original.contains_key(s) implies s1.entries.contains_key(
                s1.by_original[s],
            ) && s1.entries[s1.by_original[s]] == s by {
                if s != l.1 {
                    assert(s0.by_original.contains_key(s));
                    assert(s0.entries.contains_key(s0.by_original[s]));
                }
            }
            assert forall|k: Seq<char>| #[trigger] s1.entries.contains_key(k) implies (token_index(
                k,
            ) matches Some(i) ==> i < s1.next) by {
                if k != t {
                    assert(s0.entries.contains_key(k));
                }
            }
        }
        assert forall|e: Leaf| #[trigger] ls.contains(e) && should_mask(e.0, e.1) implies s1.by_original.contains_key(
            e.1,
        ) by {
            let k = choose|k: int| 0 <= k < ls.len() && ls[k] == e;
            if k < ls.len() - 1 {
                assert(init[k] == e);
                assert(init.contains(e));
            }
        }
    }
}

/// Leaves of the first `i` elements of an array.
pub open spec fn items_prefix(xs: Seq<Json>, path: Seq<Seq<char>>, i: int) -> Seq<Leaf> {
    item_leaves(xs, path).take(i).flatten_alt()
}

/// Leaves of the first `i` members of an object.
pub open spec fn members_prefix(ms: Seq<(Seq<char>, Json)>, path: Seq<Seq<char>>, i: int) -> Seq<
    Leaf,
> {
    member_leaves(ms, path).take(i).flatten_alt()
}

// ---------------------------------------------------------------------------
// Mapping files
/// The mapping from tokens to the original values.
#[derive(Debug, Clone)]
pub struct MappingFile {
    pub version: u8,
    /// Token and original value, in ascending order of token.
    pub entries: Vec<(String, String)>,
}

impl MappingFile {
    /// The entries are sorted by token, so no token occurs twice.
    pub open spec fn wf(&self) -> bool {
        sorted(pairs(self.entries@))
    }

    /// The mapping as a map from tokens to original values.
    pub open spec fn map(&self) -> Map<Seq<char>, Seq<char>> {
        map_of(pairs(self.entries@))
    }
}

/// The mapping format version written and accepted.
pub fn default_version() -> (r: u8)
    ensures
        r == 1,
{
    1
}

impl Default for MappingFile {
    fn default() -> (r: Self)
        ensures
            r.version == 1,
            r.entries@.len() == 0,
    {
        MappingFile { version: default_version(), entries: Vec::new() }
    }
}

/// Counts of a sanitization.
#[derive(Debug)]
pub struct SanitizeReport {
    pub replaced_values: usize,
    pub total_mappings: usize,
}

/// Counts of a restoration.
#[derive(Debug)]
pub struct RestoreReport {
    pub restored_values: usize,
}

/// The token chosen for each original value when sanitization starts from
/// a mapping: the first token, in token order, that maps to it.
pub open spec fn initial_by_original(ps: Seq<(Seq<char>, Seq<char>)>) -> Map<Seq<char>, Seq<char>> {
    ps.fold_left(
        Map::empty(),
        |m: Map<Seq<char>, Seq<char>>, e: (Seq<char>, Seq<char>)|
            if m.contains_key(e.1) {
                m
            } else {
                m.insert(e.1, e.0)
            },
    )
}

/// The first token number to try: one above the largest token number in the
/// mapping, and at least 1.
pub open spec fn initial_next(ps: Seq<(Seq<char>, Seq<char>)>) -> nat {
    ps.fold_left(
        1nat,
        |n: nat, e: (Seq<char>, Seq<char>)|
            match token_index(e.0) {
                Some(i) => if i + 1 > n {
                    i + 1
                } else {
                    n
                },
                None => n,
            },
    )
}

/// The state a sanitization starts from.
pub open spec fn initial_state(ps: Seq<(Seq<char>, Seq<char>)>) -> TokenState {
    TokenState {
        entries: map_of(ps),
        by_original: initial_by_original(ps),
        next: initial_next(ps),
        replaced: 0,
    }
}

/// No token of the mapping has the largest `usize` as its number (the next
/// number after it would not fit).
pub open spec fn tokens_fit(ps: Seq<(Seq<char>, Seq<char>)>) -> bool {
    forall|i: int| 0 <= i < ps.len() ==> token_index(#[trigger] ps[i].0) != Some(usize::MAX as nat)
}

/// Replaces sensitive values with stable tokens and records the mapping.
#[derive(Debug)]
pub struct Sanitizer {
    mapping: MappingFile,
    original_to_token: Vec<(String, String)>,
    next_index: usize,
    replaced_values: usize,
}

/// Keys of a path, as character sequences.
pub open spec fn path_view(path: Seq<String>) -> Seq<Seq<char>> {
    Seq::new(path.len(), |i: int| path[i]@)
}

impl Sanitizer {
    pub closed spec fn state(&self) -> TokenState {
        TokenState {
            entries: map_of(pairs(self.mapping.entries@)),
            by_original: map_of(pairs(self.original_to_token@)),
            next: self.next_index as nat,
            replaced: self.replaced_values as nat,
        }
    }

    pub closed spec fn version(&self) -> u8 {
        self.mapping.version
    }

    pub closed spec fn inv(&self) -> bool {
        &&& sorted(pairs(self.mapping.entries@))
        &&& sorted(pairs(self.original_to_token@))
        &&& consistent(self.state())
    }
}

/// The token with number `n`.
pub fn fmt_token(n: usize) -> (r: String)
    ensures
        r@ == token_text(n as nat),
{
    let mut t = owned("__BW_MAP_");
    let digits = fmt_zero_padded(n, 6);
    push_str(&mut t, digits.as_str());
    push_str(&mut t, "__");
    t
}

pub fn is_metadata_key_exec(key: &str) -> (r: bool)
    ensures
        r == is_metadata_key(key@),
{
    str_is(key, "id") || str_is(key, "organizationId") || str_is(key, "folderId") || str_is(
        key,
        "collectionId",
    ) || str_is(key, "object") || str_is(key, "type") || str_is(key, "reprompt") || str_is(
        key,
        "creationDate",
    ) || str_is(key, "revisionDate") || str_is(key, "deletedDate") || str_is(key, "lastUsedDate")
}

fn path_is2_exec(path: &Vec<String>, a: &str, b: &str) -> (r: bool)
    ensures
        r == path_is2(path_view(path@), a@, b@),
{
    path.len() == 2 && str_is(path[0].as_str(), a) && str_is(path[1].as_str(), b)
}

fn path_is3_exec(path: &Vec<String>, a: &str, b: &str, c: &str) -> (r: bool)
    ensures
        r == path_is3(path_view(path@), a@, b@, c@),
{
    path.len() == 3 && str_is(path[0].as_str(), a) && str_is(path[1].as_str(), b) && str_is(
        path[2].as_str(),
        c,
    )
}

fn path_is4_exec(path: &Vec<String>, a: &str, b: &str, c: &str, d: &str) -> (r: bool)
    ensures
        r == path_is4(path_view(path@), a@, b@, c@, d@),
{
    path.len() == 4 && str_is(path[0].as_str(), a) && str_is(path[1].as_str(), b) && str_is(
        path[2].as_str(),
        c,
    ) && str_is(path[3].as_str(), d)
}

/// `should_preserve` on the keys of a path.
pub fn should_preserve_exec(path: &Vec<String>) -> (r: bool)
    ensures
        r == should_preserve(path_view(path@)),
{
    if path.len() == 0 {
        return true;
    }
    assert(path_view(path@).last() == path@[path@.len() - 1]@);
    if is_metadata_key_exec(path[path.len() - 1].as_str()) {
        return true;
    }
    path_is2_exec(path, "folders", "name") || path_is2_exec(path, "items", "name")
        || path_is4_exec(path, "items", "login", "uris", "uri") || path_is3_exec(
        path,
        "items",
        "card",
        "number",
    ) || path_is3_exec(path, "items", "fields", "name") || path_is2_exec(
        path,
        "items",
        "collectionIds",
    )
}

/// `should_mask` on the keys of a path and a string value.
pub fn should_mask_exec(path: &Vec<String>, text: &str) -> (r: bool)
    ensures
        r == should_mask(path_view(path@), text@),
{
    if text.unicode_len() == 0 || should_preserve_exec(path) {
        return false;
    }
    path.len() > 0 && str_is(path[0].as_str(), "items")
}

pub proof fn lemma_flatten_len_mono(ss: Seq<Seq<Leaf>>, i: int)
    requires
        0 <= i <= ss.len(),
    ensures
        ss.take(i).flatten_alt().len() <= ss.flatten_alt().len(),
    decreases ss.len() - i,
{
    if i < ss.len() {
        lemma_flatten_take(ss, i);
        lemma_flatten_len_mono(ss, i + 1);
    } else {
        assert(ss.take(i) =~= ss);
    }
}

impl Sanitizer {
    /// Starts from an existing mapping: each original value keeps the first
    /// token (in token order) that maps to it, and new tokens are numbered from
    /// one above the largest token number in use.
    pub fn new(mapping: MappingFile) -> (r: Self)
        requires
            mapping.wf(),
            tokens_fit(pairs(mapping.entries@)),
        ensures
            r.inv(),
            r.state() == initial_state(pairs(mapping.entries@)),
            r.version() == mapping.version,
    {
        let mut original_to_token: Vec<(String, String)> = Vec::new();
        let mut next_index: usize = 1;
        let ghost ps = pairs(mapping.entries@);
        let mut i: usize = 0;
        assert(ps.take(0) =~= Seq::<(Seq<char>, Seq<char>)>::empty());
        assert(map_of(pairs(original_to_token@)) =~= Map::<Seq<char>, Seq<char>>::empty());
        while i < mapping.entries.len()
            invariant
                i <= ps.len(),
                ps == pairs(mapping.entries@),
                sorted(ps),
                tokens_fit(ps),
                sorted(pairs(original_to_token@)),
                map_of(pairs(original_to_token@)) == initial_by_original(ps.take(i as int)),
                next_index as nat == initial_next(ps.take(i as int)),
                next_index >= 1,
                forall|s: Seq<char>| #[trigger]
                    map_of(pairs(original_to_token@)).contains_key(s) ==> exists|j: int|
                        0 <= j < i && ps[j].0 == map_of(pairs(original_to_token@))[s] && ps[j].1
                            == s,
                forall|j: int|
                    0 <= j < i ==> (token_index(#[trigger] ps[j].0) matches Some(t) ==> t
                        < next_index),
            decreases ps.len() - i,
        {
            let ghost m0 = map_of(pairs(original_to_token@));
            let ghost n0 = next_index;
            assert(ps.take(i + 1).drop_last() =~= ps.take(i as int));
            assert(ps[i as int] == (mapping.entries@[i as int].0@, mapping.entries@[i as int].1@));
            let token = &mapping.entries[i].0;
            let original = &mapping.entries[i].1;
            assert(ps.take(i + 1).last() == ps[i as int]);
            assert(initial_by_original(ps.take(i + 1)) == (if m0.contains_key(ps[i as int].1) {
                m0
            } else {
                m0.insert(ps[i as int].1, ps[i as int].0)
            }));
            let found = find_key(&original_to_token, original.as_str());
            if found.is_none() {
                insert_sorted(&mut original_to_token, original.clone(), token.clone());
                proof {
                    let m1 = map_of(pairs(original_to_token@));
                    assert forall|s: Seq<char>| #[trigger] m1.contains_key(s) implies exists|j: int|
                        0 <= j < i + 1 && ps[j].0 == m1[s] && ps[j].1 == s by {
                        if s != original@ {
                            assert(m0.contains_key(s));
                            let j = choose|j: int| 0 <= j < i && ps[j].0 == m0[s] && ps[j].1 == s;
                            assert(ps[j].0 == m1[s]);
                        } else {
                            assert(ps[i as int].0 == m1[s]);
                        }
                    }
                }
            } else {
                proof {
                    let j0 = found.unwrap();
                    assert(pairs(original_to_token@)[j0 as int].0 == original@);
                    assert(has_key(pairs(original_to_token@), original@));
                    let m1 = map_of(pairs(original_to_token@));
                    assert forall|s: Seq<char>| #[trigger] m1.contains_key(s) implies exists|j: int|
                        0 <= j < i + 1 && ps[j].0 == m1[s] && ps[j].1 == s by {
                        let j = choose|j: int| 0 <= j < i && ps[j].0 == m0[s] && ps[j].1 == s;
                        assert(ps[j].0 == m1[s]);
                    }
                }
            }
            match parse_token_index(token.as_str()) {
                Some(index) => {
                    assert(token_index(ps[i as int].0) != Some(usize::MAX as nat));
                    if index + 1 > next_index {
                        next_index = index + 1;
                    }
                },
                None => {},
            }
            i = i + 1;
        }
        assert(ps.take(i as int) =~= ps);
        let r = Sanitizer {
            mapping,
            original_to_token,
            next_index,
            replaced_values: 0,
        };
        proof {
            let st = r.state();
            assert forall|s: Seq<char>| #[trigger]
                st.by_original.contains_key(s) implies st.entries.contains_key(st.by_original[s])
                && st.entries[st.by_original[s]] == s by {
                let j = choose|j: int| 0 <= j < i && ps[j].0 == st.by_original[s] && ps[j].1 == s;
                lemma_map_of_at(ps, j);
            }
            assert forall|k: Seq<char>| #[trigger] st.entries.contains_key(k) implies (token_index(
                k,
            ) matches Some(t) ==> t < st.next) by {
                let j = key_pos(ps, k);
                assert(ps[j].0 == k);
            }
        }
        r
    }

    /// The token for a masked value: the one it already has, or a new one.
    fn token_for(&mut self, original: &String) -> (token: String)
        requires
            old(self).inv(),
            old(self).state().next < usize::MAX,
        ensures
            final(self).inv(),
            final(self).version() == old(self).version(),
            final(self).state() == ({
                let st = old(self).state();
                if st.by_original.contains_key(original@) {
                    st
                } else {
                    let t = token_text(st.next);
                    TokenState {
                        entries: st.entries.insert(t, original@),
                        by_original: st.by_original.insert(original@, t),
                        next: st.next + 1,
                        replaced: st.replaced,
                    }
                }
            }),
            final(self).state().by_original.contains_key(original@),
            token@ == final(self).state().by_original[original@],
    {
        match find_key(&self.original_to_token, original.as_str()) {
            Some(i) => {
                proof {
                    lemma_map_of_at(pairs(self.original_to_token@), i as int);
                }
                return self.original_to_token[i].1.clone();
            },
            None => {},
        }
        let ghost st = self.state();
        let ghost n0 = self.next_index;
        let mut token = String::new();
        loop
            invariant_except_break
                self.inv(),
                self.state() == st,
                self.next_index == n0,
                n0 < usize::MAX,
                !st.by_original.contains_key(original@),
                self.version() == old(self).version(),
                self.mapping.entries@ == old(self).mapping.entries@,
                self.original_to_token@ == old(self).original_to_token@,
                self.replaced_values == old(self).replaced_values,
                self.mapping.version == old(self).mapping.version,
            ensures
                token@ == token_text(n0 as nat),
                !st.entries.contains_key(token@),
                self.next_index == n0 + 1,
                self.mapping.entries@ == old(self).mapping.entries@,
                self.original_to_token@ == old(self).original_to_token@,
                self.replaced_values == old(self).replaced_values,
                self.mapping.version == old(self).mapping.version,
            decreases usize::MAX - self.next_index,
        {
            let candidate = fmt_token(self.next_index);
            self.next_index = self.next_index + 1;
            proof {
                lemma_token_index_of_token(n0 as nat);
            }
            match find_key(&self.mapping.entries, candidate.as_str()) {
                None => {
                    token = candidate;
                    break;
                },
                Some(j) => {
                    proof {
                        lemma_map_of_at(pairs(self.mapping.entries@), j as int);
                        assert(st.entries.contains_key(candidate@));
                        assert(false);
                    }
                },
            }
        }
        let ghost t = token@;
        insert_sorted(&mut self.mapping.entries, token.clone(), owned(original.as_str()));
        insert_sorted(&mut self.original_to_token, owned(original.as_str()), token.clone());
        proof {
            let s1 = self.state();
            lemma_token_index_of_token(n0 as nat);
            assert forall|s: Seq<char>| #[trigger] s1.by_original.contains_key(s) implies s1.entries.contains_key(
                s1.by_original[s],
            ) && s1.entries[s1.by_original[s]] == s by {
                if s != original@ {
                    assert(st.by_original.contains_key(s));
                    assert(st.entries.contains_key(st.by_original[s]));
                }
            }
            assert forall|k: Seq<char>| #[trigger] s1.entries.contains_key(k) implies (token_index(
                k,
            ) matches Some(i) ==> i < s1.next) by {
                if k != t {
                    assert(st.entries.contains_key(k));
                }
            }
        }
        token
    }
}

/// After meeting the leaves of block `i` too, the earlier blocks' outputs are
/// unchanged: their masked values already had tokens, which a run keeps.
proof fn lemma_earlier_blocks_stable(
    st0: TokenState,
    blocks: Seq<Seq<Leaf>>,
    i: int,
    st1: TokenState,
    k: int,
    child: Json,
    path: Seq<Seq<char>>,
)
    requires
        0 <= k < i < blocks.len(),
        consistent(st0),
        st0.next + blocks.take(i + 1).flatten_alt().len() <= usize::MAX + 1,
        st1 == run_tokens(st0, blocks.take(i + 1).flatten_alt()),
        blocks[k] == leaves(child, path),
    ensures
        map_strings(child, path, masked_with(run_tokens(st0, blocks.take(i).flatten_alt()).by_original))
            == map_strings(child, path, masked_with(st1.by_original)),
{
    let pre = blocks.take(i).flatten_alt();
    lemma_flatten_take(blocks, i);
    lemma_run_concat(st0, pre, blocks[i]);
    lemma_run_facts(st0, pre);
    let sm = run_tokens(st0, pre);
    lemma_run_facts(sm, blocks[i]);
    assert forall|e: Leaf| #[trigger] leaves(child, path).contains(e) implies masked_with(
        sm.by_original,
    )(e.0, e.1) == masked_with(st1.by_original)(e.0, e.1) by {
        assert(blocks.take(i)[k] == blocks[k]);
        lemma_flatten_contains(blocks.take(i), k, e);
        if should_mask(e.0, e.1) {
            assert(sm.by_original.contains_key(e.1));
        }
    }
    lemma_map_strings_agree(child, path, masked_with(sm.by_original), masked_with(st1.by_original));
}

impl Sanitizer {
    /// Replaces, depth first and in document order, every masked string value
    /// of `value` (under the keys `path`) by its token.
    fn sanitize_value(&mut self, value: &mut JsonValue, path: &mut Vec<String>)
        requires
            old(self).inv(),
            old(self).state().next + leaves(old(value).model(), path_view(old(path)@)).len()
                <= usize::MAX,
            old(self).state().replaced + leaves(old(value).model(), path_view(old(path)@)).len()
                <= usize::MAX,
        ensures
            final(self).inv(),
            final(self).version() == old(self).version(),
            final(path)@ == old(path)@,
            final(self).state() == run_tokens(
                old(self).state(),
                leaves(old(value).model(), path_view(old(path)@)),
            ),
            final(value).model() == map_strings(
                old(value).model(),
                path_view(old(path)@),
                masked_with(final(self).state().by_original),
            ),
        decreases *old(value),
    {
        let ghost st0 = self.state();
        let ghost pv = path_view(path@);
        let ghost path0 = path@;
        match value {
            JsonValue::String(text) => {
                let ghost l = (pv, text@);
                proof {
                    assert(leaves(Json::Str(text@), pv) == seq![l]);
                    assert(seq![l] =~= Seq::<Leaf>::empty().push(l));
                    lemma_run_push(st0, Seq::empty(), l);
                }
                if should_mask_exec(path, text.as_str()) {
                    let token = self.token_for(text);
                    *text = token;
                    self.replaced_values = self.replaced_values + 1;
                }
            },
            JsonValue::Array(items) => {
                let ghost orig = *items;
                let ghost xs0 = models(items@);
                proof {
                    lemma_model_array(orig);
                }
                let ghost blocks = item_leaves(xs0, pv);
                proof {
                    lemma_flatten_len_mono(blocks, 0);
                    assert(blocks.take(0) =~= Seq::<Seq<Leaf>>::empty());
                }
                let mut i: usize = 0;
                while i < items.len()
                    invariant
                        i <= xs0.len(),
                        items@.len() == xs0.len(),
                        xs0 == models(orig@),
                        blocks == item_leaves(xs0, pv),
                        path@ == path0,
                        pv == path_view(path0),
                        decreases_to!(*old(value) => orig),
                        consistent(st0),
                        st0.next + blocks.flatten_alt().len() <= usize::MAX,
                        st0.replaced + blocks.flatten_alt().len() <= usize::MAX,
                        self.inv(),
                        self.version() == old(self).version(),
                        self.state() == run_tokens(st0, blocks.take(i as int).flatten_alt()),
                        forall|k: int| i <= k < xs0.len() ==> #[trigger] items@[k] == orig@[k],
                        forall|k: int|
                            0 <= k < i ==> #[trigger] items@[k].model() == map_strings(
                                xs0[k],
                                pv,
                                masked_with(self.state().by_original),
                            ),
                    decreases xs0.len() - i,
                {
                    proof {
                        assert(decreases_to!(orig => orig@));
                        assert(decreases_to!(orig@ => orig@[i as int]));
                        lemma_flatten_take(blocks, i as int);
                        lemma_flatten_len_mono(blocks, i + 1);
                        lemma_run_facts(st0, blocks.take(i as int).flatten_alt());
                        assert(blocks[i as int] == leaves(xs0[i as int], pv));
                    }
                    let ghost before = *items;
                    let ghost s_before = self.state();
                    self.sanitize_value(&mut items[i], path);
                    proof {
                        lemma_run_concat(st0, blocks.take(i as int).flatten_alt(), blocks[i as int]);
                        assert forall|k: int| 0 <= k < i + 1 implies #[trigger] items@[k].model()
                            == map_strings(xs0[k], pv, masked_with(self.state().by_original)) by {
                            if k < i {
                                assert(items@[k] == before[k]);
                                lemma_earlier_blocks_stable(
                                    st0,
                                    blocks,
                                    i as int,
                                    self.state(),
                                    k,
                                    xs0[k],
                                    pv,
                                );
                            }
                        }
                    }
                    i = i + 1;
                }
                proof {
                    assert(blocks.take(i as int) =~= blocks);
                    lemma_model_array(*items);
                    lemma_map_strings_array(xs0, pv, masked_with(self.state().by_original));
                    assert(models(items@) =~= Seq::new(
                        xs0.len(),
                        |k: int| map_strings(xs0[k], pv, masked_with(self.state().by_original)),
                    ));
                }
            },
            JsonValue::Object(members) => {
                let ghost orig = *members;
                let ghost ms0 = member_models(members@);
                proof {
                    lemma_model_object(orig);
                }
                let ghost blocks = member_leaves(ms0, pv);
                proof {
                    lemma_flatten_len_mono(blocks, 0);
                    assert(blocks.take(0) =~= Seq::<Seq<Leaf>>::empty());
                }
                let mut i: usize = 0;
                while i < members.len()
                    invariant
                        i <= ms0.len(),
                        members@.len() == ms0.len(),
                        ms0 == member_models(orig@),
                        blocks == member_leaves(ms0, pv),
                        path@ == path0,
                        pv == path_view(path0),
                        decreases_to!(*old(value) => orig),
                        consistent(st0),
                        st0.next + blocks.flatten_alt().len() <= usize::MAX,
                        st0.replaced + blocks.flatten_alt().len() <= usize::MAX,
                        self.inv(),
                        self.version() == old(self).version(),
                        self.state() == run_tokens(st0, blocks.take(i as int).flatten_alt()),
                        forall|k: int| i <= k < ms0.len() ==> #[trigger] members@[k] == orig@[k],
                        forall|k: int|
                            0 <= k < i ==> #[trigger] members@[k].0@ == ms0[k].0
                                && members@[k].1.model() == map_strings(
                                ms0[k].1,
                                pv.push(ms0[k].0),
                                masked_with(self.state().by_original),
                            ),
                    decreases ms0.len() - i,
                {
                    proof {
                        assert(decreases_to!(orig => orig@));
                        assert(decreases_to!(orig@ => orig@[i as int]));
                        assert(decreases_to!(orig@[i as int] => orig@[i as int].1));
                        lemma_flatten_take(blocks, i as int);
                        lemma_flatten_len_mono(blocks, i + 1);
                        lemma_run_facts(st0, blocks.take(i as int).flatten_alt());
                        assert(blocks[i as int] == leaves(ms0[i as int].1, pv.push(ms0[i as int].0)));
                    }
                    let ghost before = *members;
                    let key = members[i].0.clone();
                    path.push(key);
                    proof {
                        assert(path_view(path@) =~= pv.push(ms0[i as int].0));
                    }
                    self.sanitize_value(&mut members[i].1, path);
                    path.pop();
                    proof {
                        assert(path@ =~= path0);
                        lemma_run_concat(st0, blocks.take(i as int).flatten_alt(), blocks[i as int]);
                        assert forall|k: int| 0 <= k < i + 1 implies #[trigger] members@[k].0@
                            == ms0[k].0 && members@[k].1.model() == map_strings(
                            ms0[k].1,
                            pv.push(ms0[k].0),
                            masked_with(self.state().by_original),
                        ) by {
                            if k < i {
                                assert(members@[k] == before[k]);
                                lemma_earlier_blocks_stable(
                                    st0,
                                    blocks,
                                    i as int,
                                    self.state(),
                                    k,
                                    ms0[k].1,
                                    pv.push(ms0[k].0),
                                );
                            }
                        }
                    }
                    i = i + 1;
                }
                proof {
                    assert(blocks.take(i as int) =~= blocks);
                    lemma_model_object(*members);
                    lemma_map_strings_object(ms0, pv, masked_with(self.state().by_original));
                    assert(member_models(members@) =~= Seq::new(
                        ms0.len(),
                        |k: int|
                            (
                                ms0[k].0,
                                map_strings(
                                    ms0[k].1,
                                    pv.push(ms0[k].0),
                                    masked_with(self.state().by_original),
                                ),
                            ),
                    ));
                }
            },
            _ => {
                assert(leaves(old(value).model(), pv) =~= Seq::<Leaf>::empty());
            },
        }
    }
}

/// The state after sanitizing document `v` starting from mapping pairs `ps`.
pub open spec fn sanitized_state(v: Json, ps: Seq<(Seq<char>, Seq<char>)>) -> TokenState {
    run_tokens(initial_state(ps), leaves(v, Seq::empty()))
}

/// Number of string values in a document.
pub open spec fn string_count(v: Json) -> nat {
    leaves(v, Seq::empty()).len()
}

/// Whether sanitizing `v` from mapping pairs `ps` keeps every token number
/// and count within `usize`.
pub open spec fn sanitize_fits(v: Json, ps: Seq<(Seq<char>, Seq<char>)>) -> bool {
    tokens_fit(ps) && initial_next(ps) + string_count(v) <= usize::MAX
}

impl Sanitizer {
    /// Sanitizes a document, returning the grown mapping and the counts.
    pub fn sanitize(self, value: &mut JsonValue) -> (r: (MappingFile, SanitizeReport))
        requires
            self.inv(),
            self.state().next + string_count(old(value).model()) <= usize::MAX,
            self.state().replaced + string_count(old(value).model()) <= usize::MAX,
        ensures
            ({
                let st = run_tokens(self.state(), leaves(old(value).model(), Seq::empty()));
                &&& final(value).model() == map_strings(
                    old(value).model(),
                    Seq::empty(),
                    masked_with(st.by_original),
                )
                &&& r.0.wf()
                &&& r.0.map() == st.entries
                &&& r.0.version == self.version()
                &&& r.1.replaced_values == st.replaced
                &&& r.1.total_mappings == r.0.entries@.len()
            }),
    {
        let mut sanitizer = self;
        let mut path: Vec<String> = Vec::new();
        assert(path_view(path@) =~= Seq::<Seq<char>>::empty());
        sanitizer.sanitize_value(value, &mut path);
        let report = SanitizeReport {
            replaced_values: sanitizer.replaced_values,
            total_mappings: sanitizer.mapping.entries.len(),
        };
        (sanitizer.mapping, report)
    }
}

/// `sanitize_json`: sanitizes `value` starting from `mapping`.
pub fn sanitize_json(value: &mut JsonValue, mapping: MappingFile) -> (r: (
    MappingFile,
    SanitizeReport,
))
    requires
        mapping.wf(),
        sanitize_fits(old(value).model(), pairs(mapping.entries@)),
    ensures
        ({
            let st = sanitized_state(old(value).model(), pairs(mapping.entries@));
            &&& final(value).model() == map_strings(
                old(value).model(),
                Seq::empty(),
                masked_with(st.by_original),
            )
            &&& r.0.wf()
            &&& r.0.map() == st.entries
            &&& r.0.version == mapping.version
            &&& r.1.replaced_values == st.replaced
            &&& r.1.total_mappings == r.0.entries@.len()
        }),
{
    let sanitizer = Sanitizer::new(mapping);
    sanitizer.sanitize(value)
}

/// One above the largest token number of the mapping (at least 1), or `None`
/// when some token number is the largest `usize`.
pub fn next_token_number(entries: &Vec<(String, String)>) -> (r: Option<usize>)
    ensures
        r matches Some(n) ==> tokens_fit(pairs(entries@)) && n == initial_next(pairs(entries@)),
        r is None ==> !tokens_fit(pairs(entries@)),
{
    let ghost ps = pairs(entries@);
    let mut next: usize = 1;
    let mut i: usize = 0;
    while i < entries.len()
        invariant
            i <= ps.len(),
            ps == pairs(entries@),
            forall|j: int| 0 <= j < i ==> token_index(#[trigger] ps[j].0) != Some(usize::MAX as nat),
            next as nat == initial_next(ps.take(i as int)),
        decreases ps.len() - i,
    {
        assert(ps.take(i + 1).drop_last() =~= ps.take(i as int));
        assert(ps[i as int].0 == entries@[i as int].0@);
        match parse_token_index(entries[i].0.as_str()) {
            Some(index) => {
                if index == usize::MAX {
                    return None;
                }
                if index + 1 > next {
                    next = index + 1;
                }
            },
            None => {},
        }
        i = i + 1;
    }
    assert(ps.take(i as int) =~= ps);
    Some(next)
}

pub proof fn lemma_leaves_len(j: Json, p: Seq<Seq<char>>, q: Seq<Seq<char>>)
    ensures
        leaves(j, p).len() == leaves(j, q).len(),
    decreases j,
{
    match j {
        Json::Array(xs) => {
            let a = item_leaves(xs, p);
            let b = item_leaves(xs, q);
            assert forall|i: int| 0 <= i <= xs.len() implies #[trigger] a.take(i).flatten_alt().len()
                == b.take(i).flatten_alt().len() by {
                lemma_blocks_len(xs, p, q, i);
            }
            assert(a.take(xs.len() as int) =~= a);
            assert(b.take(xs.len() as int) =~= b);
        },
        Json::Object(ms) => {
            let a = member_leaves(ms, p);
            let b = member_leaves(ms, q);
            assert forall|i: int| 0 <= i <= ms.len() implies #[trigger] a.take(i).flatten_alt().len()
                == b.take(i).flatten_alt().len() by {
                lemma_member_blocks_len(ms, p, q, i);
            }
            assert(a.take(ms.len() as int) =~= a);
            assert(b.take(ms.len() as int) =~= b);
        },
        _ => {},
    }
}

proof fn lemma_blocks_len(xs: Seq<Json>, p: Seq<Seq<char>>, q: Seq<Seq<char>>, i: int)
    requires
        0 <= i <= xs.len(),
    ensures
        item_leaves(xs, p).take(i).flatten_alt().len() == item_leaves(xs, q).take(i).flatten_alt().len(),
    decreases xs, i,
{
    if i > 0 {
        lemma_blocks_len(xs, p, q, i - 1);
        lemma_flatten_take(item_leaves(xs, p), i - 1);
        lemma_flatten_take(item_leaves(xs, q), i - 1);
        assert(decreases_to!(xs => xs[i - 1]));
        lemma_leaves_len(xs[i - 1], p, q);
    }
}

proof fn lemma_member_blocks_len(ms: Seq<(Seq<char>, Json)>, p: Seq<Seq<char>>, q: Seq<Seq<char>>, i: int)
    requires
        0 <= i <= ms.len(),
    ensures
        member_leaves(ms, p).take(i).flatten_alt().len() == member_leaves(ms, q).take(i).flatten_alt().len(),
    decreases ms, i,
{
    if i > 0 {
        lemma_member_blocks_len(ms, p, q, i - 1);
        lemma_flatten_take(member_leaves(ms, p), i - 1);
        lemma_flatten_take(member_leaves(ms, q), i - 1);
        assert(decreases_to!(ms => ms[i - 1]));
        assert(decreases_to!(ms[i - 1] => ms[i - 1].1));
        lemma_leaves_len(ms[i - 1].1, p.push(ms[i - 1].0), q.push(ms[i - 1].0));
    }
}

/// Item metadata stays readable. A string value whose last key is `id`,
/// `organizationId`, `folderId`, `collectionId`, `object`, `type`,
/// `reprompt`, `creationDate`, `revisionDate`, `deletedDate` or
/// `lastUsedDate` is never masked: sanitizing, whatever tokens it holds,
/// leaves the value as it is.
pub proof fn law_metadata_stays_readable(
    by_original: Map<Seq<char>, Seq<char>>,
    path: Seq<Seq<char>>,
    text: Seq<char>,
)
    requires
        path.len() > 0,
        ({
            let k = path[path.len() - 1];
            ||| k == "id"@
            ||| k == "organizationId"@
            ||| k == "folderId"@
            ||| k == "collectionId"@
            ||| k == "object"@
            ||| k == "type"@
            ||| k == "reprompt"@
            ||| k == "creationDate"@
            ||| k == "revisionDate"@
            ||| k == "deletedDate"@
            ||| k == "lastUsedDate"@
        }),
    ensures
        !should_mask(path, text),
        masked_with(by_original)(path, text) == text,
{
}

/// Which string values are masked: exactly the non-empty ones under `items`
/// whose last key is not item metadata (`id`, `organizationId`, `folderId`,
/// `collectionId`, `object`, `type`, `reprompt`, `creationDate`,
/// `revisionDate`, `deletedDate`, `lastUsedDate`) and that are not an item
/// name, a login URI, a card number, a custom field name or a collection id.
/// (Folder names lie outside `items` and stay readable too.)
pub proof fn law_masked_values(path: Seq<Seq<char>>, text: Seq<char>)
    ensures
        should_mask(path, text) == ({
            let n = path.len();
            let k = path[n - 1];
            let metadata = k == "id"@ || k == "organizationId"@ || k == "folderId"@ || k == "collectionId"@ || k
                == "object"@ || k == "type"@ || k == "reprompt"@ || k == "creationDate"@ || k == "revisionDate"@ || k
                == "deletedDate"@ || k == "lastUsedDate"@;
            let dedupe = (n == 2 && path[1] == "name"@) || (n == 4 && path[1] == "login"@ && path[2] == "uris"@
                && path[3] == "uri"@) || (n == 3 && path[1] == "card"@ && path[2] == "number"@) || (n == 3 && path[1]
                == "fields"@ && path[2] == "name"@) || (n == 2 && path[1] == "collectionIds"@);
            &&& text.len() > 0
            &&& n > 0
            &&& path[0] == "items"@
            &&& !metadata
            &&& !dedupe
        }),
{
    reveal_strlit("items");
    reveal_strlit("folders");
    assert("items"@.len() == 5 && "folders"@.len() == 7);
}

} // verus!
