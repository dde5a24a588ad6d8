//! Login records: what the merge analysis reads of each login item.
use vstd::prelude::*;

use crate::endpoint::{
    char_is_alphanumeric, is_alphanumeric, is_generic_label, is_generic_label_exec, parse_endpoint,
    parse_endpoint_exec, Endpoint, EndpointKind, EndpointModel,
};
use crate::json::{
    get, get_member, lemma_model_array, lemma_model_object, member, member_models,
    models, Json, JsonNumber, JsonValue, Num,
};
use crate::strset::{set_add, set_add_all, set_extend, set_insert, strs, ascending};
use crate::text::{
    all_digits, byte_len, byte_len_at_least, chars_of, decimal, fmt_decimal, lower, lowered, owned,
    push_char, push_str, string_of,
};

verus! {

// ---------------------------------------------------------------------------
// Service tokens
/// `str::split` on every character that is not alphanumeric.
pub open spec fn split_words(s: Seq<char>) -> Seq<Seq<char>>
    decreases s.len(),
{
    if s.len() == 0 {
        seq![Seq::empty()]
    } else {
        let p = split_words(s.drop_last());
        if !is_alphanumeric(s.last()) {
            p.push(Seq::empty())
        } else {
            p.update(p.len() - 1, p.last().push(s.last()))
        }
    }
}

pub proof fn lemma_split_words_nonempty(s: Seq<char>)
    ensures
        split_words(s).len() >= 1,
    decreases s.len(),
{
    if s.len() > 0 {
        lemma_split_words_nonempty(s.drop_last());
    }
}

/// A word kept as a service token: at least 3 bytes, not all digits, not a
/// generic label.
pub open spec fn keep_token(t: Seq<char>) -> bool {
    byte_len(t) >= 3 && !all_digits(t) && !is_generic_label(t)
}

/// `tokenize`: the set of lowercased words of a text that are kept as
/// service tokens.
pub open spec fn tokenize(text: Seq<char>) -> Seq<Seq<char>> {
    split_words(text).fold_left(
        Seq::<Seq<char>>::empty(),
        |acc: Seq<Seq<char>>, w: Seq<char>|
            if keep_token(lower(w)) {
                set_insert(acc, lower(w))
            } else {
                acc
            },
    )
}

fn split_words_exec(s: &[char]) -> (r: Vec<Vec<char>>)
    ensures
        r@.len() == split_words(s@).len(),
        forall|i: int| 0 <= i < r@.len() ==> #[trigger] r@[i]@ == split_words(s@)[i],
{
    let mut pieces: Vec<Vec<char>> = Vec::new();
    let mut cur: Vec<char> = Vec::new();
    let mut i: usize = 0;
    assert(s@.take(0) =~= Seq::<char>::empty());
    while i < s.len()
        invariant
            i <= s@.len(),
            pieces@.len() + 1 == split_words(s@.take(i as int)).len(),
            forall|k: int| 0 <= k < pieces@.len() ==> #[trigger] pieces@[k]@ == split_words(
                s@.take(i as int),
            )[k],
            cur@ == split_words(s@.take(i as int)).last(),
        decreases s@.len() - i,
    {
        proof {
            lemma_split_words_nonempty(s@.take(i as int));
        }
        assert(s@.take(i + 1).drop_last() =~= s@.take(i as int));
        assert(s@.take(i + 1).last() == s@[i as int]);
        if !char_is_alphanumeric(s[i]) {
            let done = cur;
            pieces.push(done);
            cur = Vec::new();
        } else {
            cur.push(s[i]);
        }
        i = i + 1;
    }
    assert(s@.take(i as int) =~= s@);
    pieces.push(cur);
    pieces
}

fn all_ascii_digits(s: &[char]) -> (r: bool)
    ensures
        r == all_digits(s@),
{
    let mut i: usize = 0;
    while i < s.len()
        invariant
            i <= s@.len(),
            forall|k: int| 0 <= k < i ==> crate::text::is_digit(#[trigger] s@[k]),
        decreases s@.len() - i,
    {
        if !('0' <= s[i] && s[i] <= '9') {
            return false;
        }
        i = i + 1;
    }
    true
}

/// `tokenize`.
pub fn tokenize_exec(text: &[char]) -> (r: Vec<String>)
    ensures
        strs(r@) == tokenize(text@),
        ascending(strs(r@)),
{
    let words = split_words_exec(text);
    let ghost ws = split_words(text@);
    let mut out: Vec<String> = Vec::new();
    let mut i: usize = 0;
    assert(strs(out@) =~= Seq::<Seq<char>>::empty());
    assert(ws.take(0) =~= Seq::<Seq<char>>::empty());
    while i < words.len()
        invariant
            i <= words@.len(),
            words@.len() == ws.len(),
            ws == split_words(text@),
            forall|k: int| 0 <= k < words@.len() ==> #[trigger] words@[k]@ == ws[k],
            ascending(strs(out@)),
            strs(out@) == ws.take(i as int).fold_left(
                Seq::<Seq<char>>::empty(),
                |acc: Seq<Seq<char>>, w: Seq<char>|
                    if keep_token(lower(w)) {
                        set_insert(acc, lower(w))
                    } else {
                        acc
                    },
            ),
        decreases words@.len() - i,
    {
        assert(ws.take(i + 1).drop_last() =~= ws.take(i as int));
        assert(ws.take(i + 1).last() == ws[i as int]);
        assert(words@[i as int]@ == ws[i as int]);
        let t = lowered(words[i].as_slice());
        if byte_len_at_least(t.as_slice(), 3) && !all_ascii_digits(t.as_slice())
            && !is_generic_label_exec(t.as_slice()) {
            set_add(&mut out, string_of(t.as_slice()));
        }
        i = i + 1;
    }
    assert(ws.take(i as int) =~= ws);
    out
}

// ---------------------------------------------------------------------------
// Short hashes
/// The FNV-1a 64-bit prime.
pub open spec fn fnv_prime() -> u64 {
    0x100000001b3
}

/// Product modulo 2^64.
pub open spec fn mul64(x: u64, y: u64) -> u64 {
    ((x as nat * y as nat) % 0x1_0000_0000_0000_0000) as u64
}

/// One FNV-1a step over a byte.
pub open spec fn fnv_byte(h: u64, b: u8) -> u64 {
    mul64(h ^ (b as u64), fnv_prime())
}

/// FNV-1a steps over bytes.
pub open spec fn fnv_bytes(h: u64, bytes: Seq<u8>) -> u64 {
    bytes.fold_left(h, |acc: u64, b: u8| fnv_byte(acc, b))
}

/// The hash of a list of texts: the UTF-8 bytes of each, each followed by an
/// `0xff` step.
pub open spec fn hash_parts(parts: Seq<Seq<char>>) -> u64 {
    parts.fold_left(
        0xcbf29ce484222325u64,
        |h: u64, p: Seq<char>| mul64(fnv_bytes(h, vstd::utf8::encode_utf8(p)) ^ 0xffu64, fnv_prime()),
    )
}

/// Lowercase hexadecimal digit.
pub open spec fn hex_char(d: u64) -> char {
    if d < 10 {
        (('0' as u64) + d) as char
    } else {
        (('a' as u64) + d - 10) as char
    }
}

/// `{:016x}`: sixteen lowercase hexadecimal digits.
pub open spec fn hex16(h: u64) -> Seq<char> {
    Seq::new(16, |i: int| hex_char((h >> ((60 - 4 * i) as u64)) & 15))
}

/// `short_hash`: the first twelve hexadecimal digits of the hash.
pub open spec fn short_hash(parts: Seq<Seq<char>>) -> Seq<char> {
    hex16(hash_parts(parts)).take(12)
}

fn hash_bytes(h: u64, s: &str) -> (r: u64)
    ensures
        r == fnv_bytes(h, vstd::utf8::encode_utf8(s@)),
{
    let bytes = s.as_bytes();
    let ghost bs = bytes@;
    let mut acc = h;
    let mut i: usize = 0;
    assert(bs.take(0) =~= Seq::<u8>::empty());
    while i < bytes.len()
        invariant
            i <= bs.len(),
            bs == bytes@,
            bs == vstd::utf8::encode_utf8(s@),
            acc == fnv_bytes(h, bs.take(i as int)),
        decreases bs.len() - i,
    {
        assert(bs.take(i + 1).drop_last() =~= bs.take(i as int));
        assert(bs.take(i + 1).last() == bs[i as int]);
        acc = (acc ^ (bytes[i] as u64)).wrapping_mul(0x100000001b3);
        i = i + 1;
    }
    assert(bs.take(i as int) =~= bs);
    acc
}

/// `short_hash` of a list of texts.
pub fn short_hash_exec(parts: &Vec<&str>) -> (r: String)
    ensures
        r@ == short_hash(Seq::new(parts@.len(), |i: int| parts@[i]@)),
{
    let ghost ps = Seq::new(parts@.len(), |i: int| parts@[i]@);
    let mut h: u64 = 0xcbf29ce484222325;
    let mut i: usize = 0;
    assert(ps.take(0) =~= Seq::<Seq<char>>::empty());
    while i < parts.len()
        invariant
            i <= ps.len(),
            ps == Seq::new(parts@.len(), |i: int| parts@[i]@),
            h == ps.take(i as int).fold_left(
                0xcbf29ce484222325u64,
                |h: u64, p: Seq<char>|
                    mul64(fnv_bytes(h, vstd::utf8::encode_utf8(p)) ^ 0xffu64, fnv_prime()),
            ),
        decreases ps.len() - i,
    {
        assert(ps.take(i + 1).drop_last() =~= ps.take(i as int));
        assert(ps.take(i + 1).last() == ps[i as int]);
        let x = hash_bytes(h, parts[i]);
        h = (x ^ 0xff).wrapping_mul(0x100000001b3);
        i = i + 1;
    }
    assert(ps.take(i as int) =~= ps);
    let mut out = String::new();
    let mut k: u64 = 0;
    while k < 12
        invariant
            k <= 12,
            h == hash_parts(ps),
            out@ == hex16(h).take(k as int),
        decreases 12 - k,
    {
        let shift: u64 = 60 - 4 * k;
        let d: u64 = (h >> shift) & 15;
        assert(((h >> shift) & 15) < 16) by (bit_vector);
        let c = if d < 10 {
            (('0' as u8) + (d as u8)) as char
        } else {
            (('a' as u8) + (d as u8) - 10) as char
        };
        assert(c == hex_char(d));
        push_char(&mut out, c);
        k = k + 1;
        assert(out@ =~= hex16(h).take(k as int));
    }
    out
}

// ---------------------------------------------------------------------------
// Keys and tokens of a record
/// The keys and tokens gathered from a record's name and endpoints.
pub struct Enrichment {
    pub exact_keys: Seq<Seq<char>>,
    pub domain_keys: Seq<Seq<char>>,
    pub brand_keys: Seq<Seq<char>>,
    pub service_tokens: Seq<Seq<char>>,
    pub non_default_ports: Seq<u16>,
    pub has_private_endpoint: bool,
    pub has_domain_endpoint: bool,
}

/// The key under which an endpoint matches exactly: its package, its address
/// (with the port, if any), or its host.
pub open spec fn exact_key(e: EndpointModel) -> Seq<char> {
    match e.kind {
        EndpointKind::AndroidPackage => "package:"@ + e.host,
        EndpointKind::Address => match e.port {
            Some(p) => "address:"@ + e.host + ":"@ + decimal(p as nat),
            None => "address:"@ + e.host,
        },
        _ => "host:"@ + e.host,
    }
}

pub open spec fn is_default_port(p: u16) -> bool {
    p == 80 || p == 443
}

/// `enrich_record`, one endpoint.
pub open spec fn enrich_step(st: Enrichment, e: EndpointModel) -> Enrichment {
    let exact = set_insert(st.exact_keys, exact_key(e));
    let (domain_keys, has_domain, tokens1) = match e.registered_domain {
        Some(d) => (
            set_insert(st.domain_keys, "domain:"@ + d),
            true,
            set_extend(st.service_tokens, tokenize(d)),
        ),
        None => (st.domain_keys, st.has_domain_endpoint, st.service_tokens),
    };
    let (brand_keys, tokens2) = match e.brand_label {
        Some(b) => (set_insert(st.brand_keys, "brand:"@ + b), set_insert(tokens1, b)),
        None => (st.brand_keys, tokens1),
    };
    let ports = match e.port {
        Some(p) => if !is_default_port(p) {
            st.non_default_ports.push(p)
        } else {
            st.non_default_ports
        },
        None => st.non_default_ports,
    };
    Enrichment {
        exact_keys: exact,
        domain_keys,
        brand_keys,
        service_tokens: set_extend(tokens2, tokenize(e.host)),
        non_default_ports: ports,
        has_private_endpoint: st.has_private_endpoint || e.is_private_address,
        has_domain_endpoint: has_domain,
    }
}

/// `enrich_record`: tokens of the name, then keys and tokens of each endpoint
/// in turn.
pub open spec fn enrichment(name: Seq<char>, endpoints: Seq<EndpointModel>) -> Enrichment {
    endpoints.fold_left(
        Enrichment {
            exact_keys: Seq::empty(),
            domain_keys: Seq::empty(),
            brand_keys: Seq::empty(),
            service_tokens: set_extend(Seq::empty(), tokenize(name)),
            non_default_ports: Seq::empty(),
            has_private_endpoint: false,
            has_domain_endpoint: false,
        },
        |st: Enrichment, e: EndpointModel| enrich_step(st, e),
    )
}

/// A login item with a username and a password.
#[derive(Debug, Clone)]
pub struct LoginRecord {
    pub item_index: usize,
    pub name: String,
    pub username_token: String,
    pub password_token: String,
    pub account_hash: String,
    pub credential_hash: String,
    pub password_hash: String,
    pub uris: Vec<String>,
    pub endpoints: Vec<Endpoint>,
    pub exact_keys: Vec<String>,
    pub domain_keys: Vec<String>,
    pub brand_keys: Vec<String>,
    pub service_tokens: Vec<String>,
    pub non_default_ports: Vec<u16>,
    pub has_private_endpoint: bool,
    pub has_domain_endpoint: bool,
}

/// Model of a login record.
pub struct RecordModel {
    pub item_index: nat,
    pub name: Seq<char>,
    pub username: Seq<char>,
    pub password: Seq<char>,
    pub account_hash: Seq<char>,
    pub credential_hash: Seq<char>,
    pub password_hash: Seq<char>,
    pub uris: Seq<Seq<char>>,
    pub endpoints: Seq<EndpointModel>,
    pub keys: Enrichment,
}

pub open spec fn endpoint_models(v: Seq<Endpoint>) -> Seq<EndpointModel> {
    Seq::new(v.len(), |i: int| v[i].model())
}

impl LoginRecord {
    pub open spec fn model(&self) -> RecordModel {
        RecordModel {
            item_index: self.item_index as nat,
            name: self.name@,
            username: self.username_token@,
            password: self.password_token@,
            account_hash: self.account_hash@,
            credential_hash: self.credential_hash@,
            password_hash: self.password_hash@,
            uris: strs(self.uris@),
            endpoints: endpoint_models(self.endpoints@),
            keys: Enrichment {
                exact_keys: strs(self.exact_keys@),
                domain_keys: strs(self.domain_keys@),
                brand_keys: strs(self.brand_keys@),
                service_tokens: strs(self.service_tokens@),
                non_default_ports: self.non_default_ports@,
                has_private_endpoint: self.has_private_endpoint,
                has_domain_endpoint: self.has_domain_endpoint,
            },
        }
    }

    /// Every set of keys is in ascending order.
    pub open spec fn wf(&self) -> bool {
        &&& ascending(strs(self.exact_keys@))
        &&& ascending(strs(self.domain_keys@))
        &&& ascending(strs(self.brand_keys@))
        &&& ascending(strs(self.service_tokens@))
    }
}

fn prefixed(prefix: &str, s: &String) -> (r: String)
    ensures
        r@ == prefix@ + s@,
{
    let mut r = owned(prefix);
    push_str(&mut r, s.as_str());
    r
}

fn exact_key_exec(e: &Endpoint) -> (r: String)
    ensures
        r@ == exact_key(e.model()),
{
    match e.kind {
        EndpointKind::AndroidPackage => prefixed("package:", &e.host),
        EndpointKind::Address => match e.port {
            Some(p) => {
                let mut r = prefixed("address:", &e.host);
                push_str(&mut r, ":");
                let d = fmt_decimal(p as u64);
                push_str(&mut r, d.as_str());
                r
            },
            None => prefixed("address:", &e.host),
        },
        _ => prefixed("host:", &e.host),
    }
}

/// The keys and tokens of a record, gathered as `enrich_record` does.
fn enrich(name: &String, endpoints: &Vec<Endpoint>) -> (r: (
    Vec<String>,
    Vec<String>,
    Vec<String>,
    Vec<String>,
    Vec<u16>,
    bool,
    bool,
))
    ensures
        ({
            let en = enrichment(name@, endpoint_models(endpoints@));
            &&& strs(r.0@) == en.exact_keys
            &&& strs(r.1@) == en.domain_keys
            &&& strs(r.2@) == en.brand_keys
            &&& strs(r.3@) == en.service_tokens
            &&& r.4@ == en.non_default_ports
            &&& r.5 == en.has_private_endpoint
            &&& r.6 == en.has_domain_endpoint
            &&& ascending(strs(r.0@))
            &&& ascending(strs(r.1@))
            &&& ascending(strs(r.2@))
            &&& ascending(strs(r.3@))
        }),
{
    let mut exact: Vec<String> = Vec::new();
    let mut domains: Vec<String> = Vec::new();
    let mut brands: Vec<String> = Vec::new();
    let mut tokens: Vec<String> = Vec::new();
    let mut ports: Vec<u16> = Vec::new();
    let mut private = false;
    let mut has_domain = false;
    let name_chars = chars_of(name.as_str());
    let name_tokens = tokenize_exec(name_chars.as_slice());
    assert(strs(tokens@) =~= Seq::<Seq<char>>::empty());
    set_add_all(&mut tokens, &name_tokens);
    let ghost eps = endpoint_models(endpoints@);
    let ghost init = Enrichment {
        exact_keys: Seq::empty(),
        domain_keys: Seq::empty(),
        brand_keys: Seq::empty(),
        service_tokens: set_extend(Seq::empty(), tokenize(name@)),
        non_default_ports: Seq::empty(),
        has_private_endpoint: false,
        has_domain_endpoint: false,
    };
    assert(strs(exact@) =~= Seq::<Seq<char>>::empty());
    assert(strs(domains@) =~= Seq::<Seq<char>>::empty());
    assert(strs(brands@) =~= Seq::<Seq<char>>::empty());
    assert(eps.take(0) =~= Seq::<EndpointModel>::empty());
    let mut i: usize = 0;
    while i < endpoints.len()
        invariant
            i <= eps.len(),
            eps == endpoint_models(endpoints@),
            ascending(strs(exact@)),
            ascending(strs(domains@)),
            ascending(strs(brands@)),
            ascending(strs(tokens@)),
            ({
                let en = eps.take(i as int).fold_left(
                    init,
                    |st: Enrichment, e: EndpointModel| enrich_step(st, e),
                );
                &&& strs(exact@) == en.exact_keys
                &&& strs(domains@) == en.domain_keys
                &&& strs(brands@) == en.brand_keys
                &&& strs(tokens@) == en.service_tokens
                &&& ports@ == en.non_default_ports
                &&& private == en.has_private_endpoint
                &&& has_domain == en.has_domain_endpoint
            }),
        decreases eps.len() - i,
    {
        assert(eps.take(i + 1).drop_last() =~= eps.take(i as int));
        assert(eps.take(i + 1).last() == eps[i as int]);
        let e = &endpoints[i];
        set_add(&mut exact, exact_key_exec(e));
        match &e.registered_domain {
            Some(d) => {
                set_add(&mut domains, prefixed("domain:", d));
                has_domain = true;
                let dc = chars_of(d.as_str());
                let dt = tokenize_exec(dc.as_slice());
                set_add_all(&mut tokens, &dt);
            },
            None => {},
        }
        match &e.brand_label {
            Some(b) => {
                set_add(&mut brands, prefixed("brand:", b));
                set_add(&mut tokens, b.clone());
            },
            None => {},
        }
        match e.port {
            Some(p) => {
                if !(p == 80 || p == 443) {
                    ports.push(p);
                }
            },
            None => {},
        }
        private = private || e.is_private_address;
        let hc = chars_of(e.host.as_str());
        let ht = tokenize_exec(hc.as_slice());
        set_add_all(&mut tokens, &ht);
        i = i + 1;
    }
    assert(eps.take(i as int) =~= eps);
    (exact, domains, brands, tokens, ports, private, has_domain)
}

// ---------------------------------------------------------------------------
// Reading login records from an export
/// `Value::as_str` of an optional value.
pub open spec fn as_str(j: Option<Json>) -> Option<Seq<char>> {
    match j {
        Some(Json::Str(s)) => Some(s),
        _ => None,
    }
}

/// An item whose `type`, read as an `i64`, is 1.
pub open spec fn is_login_item(item: Json) -> bool {
    match get(item, "type"@) {
        Some(Json::Number(Num::PosInt(n))) => n == 1,
        Some(Json::Number(Num::NegInt(n))) => n == 1,
        _ => false,
    }
}

/// The `uri` strings of the entries of a login's `uris`.
pub open spec fn uri_strings(xs: Seq<Json>) -> Seq<Seq<char>>
    decreases xs.len(),
{
    if xs.len() == 0 {
        Seq::empty()
    } else {
        let init = uri_strings(xs.drop_last());
        match as_str(get(xs.last(), "uri"@)) {
            Some(u) => init.push(u),
            None => init,
        }
    }
}

/// The endpoints that the URIs name, skipping those that name none.
pub open spec fn endpoints_of(uris: Seq<Seq<char>>) -> Seq<EndpointModel>
    decreases uris.len(),
{
    if uris.len() == 0 {
        Seq::empty()
    } else {
        let init = endpoints_of(uris.drop_last());
        match parse_endpoint(uris.last()) {
            Some(e) => init.push(e),
            None => init,
        }
    }
}

/// The record of a login item with a non-empty username and password.
pub open spec fn record_of(item: Json, index: nat) -> Option<RecordModel> {
    if !is_login_item(item) {
        None
    } else {
        match get(item, "login"@) {
            Some(Json::Object(login)) => {
                let user = as_str(member(login, "username"@));
                let pass = as_str(member(login, "password"@));
                if user is None || pass is None || user->0.len() == 0 || pass->0.len() == 0 {
                    None
                } else {
                    let u = user->0;
                    let p = pass->0;
                    let name = match as_str(get(item, "name"@)) {
                        Some(n) => n,
                        None => Seq::empty(),
                    };
                    let uris = match member(login, "uris"@) {
                        Some(Json::Array(xs)) => uri_strings(xs),
                        _ => Seq::empty(),
                    };
                    let eps = endpoints_of(uris);
                    Some(
                        RecordModel {
                            item_index: index,
                            name,
                            username: u,
                            password: p,
                            account_hash: short_hash(seq![u]),
                            credential_hash: short_hash(seq![u, p]),
                            password_hash: short_hash(seq![p]),
                            uris,
                            endpoints: eps,
                            keys: enrichment(name, eps),
                        },
                    )
                }
            },
            _ => None,
        }
    }
}

/// Records of the first `n` items.
pub open spec fn records_upto(items: Seq<Json>, n: int) -> Seq<RecordModel>
    decreases n,
{
    if n <= 0 {
        Seq::empty()
    } else {
        let init = records_upto(items, n - 1);
        match record_of(items[n - 1], (n - 1) as nat) {
            Some(r) => init.push(r),
            None => init,
        }
    }
}

/// Number of login items among the first `n` items.
pub open spec fn logins_upto(items: Seq<Json>, n: int) -> nat
    decreases n,
{
    if n <= 0 {
        0
    } else {
        logins_upto(items, n - 1) + if is_login_item(items[n - 1]) {
            1nat
        } else {
            0nat
        }
    }
}

/// The items of an export: the `items` array, if there is one.
pub open spec fn export_items(value: Json) -> Option<Seq<Json>> {
    match get(value, "items"@) {
        Some(Json::Array(xs)) => Some(xs),
        _ => None,
    }
}

/// `collect_login_records`: the number of items, of login items, and the
/// records of login items with credentials, in item order.
pub open spec fn collected(value: Json) -> (nat, nat, Seq<RecordModel>) {
    match export_items(value) {
        Some(xs) => (xs.len(), logins_upto(xs, xs.len() as int), records_upto(xs, xs.len() as int)),
        None => (0, 0, Seq::empty()),
    }
}

pub open spec fn record_models(v: Seq<LoginRecord>) -> Seq<RecordModel> {
    Seq::new(v.len(), |i: int| v[i].model())
}

fn as_str_exec<'a>(v: Option<&'a JsonValue>) -> (r: Option<&'a String>)
    ensures
        match r {
            Some(s) => as_str(
                match v {
                    Some(x) => Some(x.model()),
                    None => None,
                },
            ) == Some(s@),
            None => as_str(
                match v {
                    Some(x) => Some(x.model()),
                    None => None,
                },
            ) is None,
        },
{
    match v {
        Some(JsonValue::String(s)) => Some(s),
        _ => None,
    }
}

fn uri_strings_exec(xs: &Vec<JsonValue>) -> (r: Vec<String>)
    ensures
        strs(r@) == uri_strings(models(xs@)),
{
    let ghost ms = models(xs@);
    let mut out: Vec<String> = Vec::new();
    let mut i: usize = 0;
    assert(ms.take(0) =~= Seq::<Json>::empty());
    assert(strs(out@) =~= Seq::<Seq<char>>::empty());
    while i < xs.len()
        invariant
            i <= ms.len(),
            ms == models(xs@),
            strs(out@) == uri_strings(ms.take(i as int)),
        decreases ms.len() - i,
    {
        assert(ms.take(i + 1).drop_last() =~= ms.take(i as int));
        assert(ms.take(i + 1).last() == xs@[i as int].model());
        match as_str_exec(get_member(&xs[i], "uri")) {
            Some(u) => {
                out.push(u.clone());
                assert(strs(out@) =~= uri_strings(ms.take(i as int)).push(u@));
            },
            None => {},
        }
        i = i + 1;
    }
    assert(ms.take(i as int) =~= ms);
    out
}

fn endpoints_exec(uris: &Vec<String>) -> (r: Vec<Endpoint>)
    ensures
        endpoint_models(r@) == endpoints_of(strs(uris@)),
{
    let ghost us = strs(uris@);
    let mut out: Vec<Endpoint> = Vec::new();
    let mut i: usize = 0;
    assert(us.take(0) =~= Seq::<Seq<char>>::empty());
    assert(endpoint_models(out@) =~= Seq::<EndpointModel>::empty());
    while i < uris.len()
        invariant
            i <= us.len(),
            us == strs(uris@),
            endpoint_models(out@) == endpoints_of(us.take(i as int)),
        decreases us.len() - i,
    {
        assert(us.take(i + 1).drop_last() =~= us.take(i as int));
        assert(us.take(i + 1).last() == uris@[i as int]@);
        match parse_endpoint_exec(uris[i].as_str()) {
            Some(e) => {
                let ghost em = e.model();
                out.push(e);
                assert(endpoint_models(out@) =~= endpoints_of(us.take(i as int)).push(em));
            },
            None => {},
        }
        i = i + 1;
    }
    assert(us.take(i as int) =~= us);
    out
}

fn is_login_item_exec(item: &JsonValue) -> (r: bool)
    ensures
        r == is_login_item(item.model()),
{
    match get_member(item, "type") {
        Some(JsonValue::Number(JsonNumber::PosInt(n))) => *n == 1,
        Some(JsonValue::Number(JsonNumber::NegInt(n))) => *n == 1,
        _ => false,
    }
}

fn record_exec(item: &JsonValue, index: usize) -> (r: Option<LoginRecord>)
    ensures
        match r {
            Some(rec) => record_of(item.model(), index as nat) == Some(rec.model()) && rec.wf(),
            None => record_of(item.model(), index as nat) is None,
        },
{
    if !is_login_item_exec(item) {
        return None;
    }
    let login = match get_member(item, "login") {
        Some(JsonValue::Object(members)) => members,
        _ => {
            return None;
        },
    };
    let ghost lm = member_models(login@);
    proof {
        lemma_model_object(*login);
    }
    let login_value = get_member(item, "login").unwrap();
    let user = match as_str_exec(get_member(login_value, "username")) {
        Some(u) => u,
        None => {
            return None;
        },
    };
    let pass = match as_str_exec(get_member(login_value, "password")) {
        Some(p) => p,
        None => {
            return None;
        },
    };
    if user.as_str().unicode_len() == 0 || pass.as_str().unicode_len() == 0 {
        return None;
    }
    let name = match as_str_exec(get_member(item, "name")) {
        Some(n) => n.clone(),
        None => String::new(),
    };
    let uris = match get_member(login_value, "uris") {
        Some(JsonValue::Array(xs)) => {
            proof {
                lemma_model_array(*xs);
            }
            uri_strings_exec(xs)
        },
        _ => {
            let v: Vec<String> = Vec::new();
            assert(strs(v@) =~= Seq::<Seq<char>>::empty());
            v
        },
    };
    let endpoints = endpoints_exec(&uris);
    let uv = vec![user.as_str()];
    let upv = vec![user.as_str(), pass.as_str()];
    let pv = vec![pass.as_str()];
    let account_hash = short_hash_exec(&uv);
    let credential_hash = short_hash_exec(&upv);
    let password_hash = short_hash_exec(&pv);
    assert(Seq::new(uv@.len(), |i: int| uv@[i]@) =~= seq![user@]);
    assert(Seq::new(upv@.len(), |i: int| upv@[i]@) =~= seq![user@, pass@]);
    assert(Seq::new(pv@.len(), |i: int| pv@[i]@) =~= seq![pass@]);
    let (exact, domains, brands, tokens, ports, private, has_domain) = enrich(&name, &endpoints);
    let rec = LoginRecord {
        item_index: index,
        name,
        username_token: user.clone(),
        password_token: pass.clone(),
        account_hash,
        credential_hash,
        password_hash,
        uris,
        endpoints,
        exact_keys: exact,
        domain_keys: domains,
        brand_keys: brands,
        service_tokens: tokens,
        non_default_ports: ports,
        has_private_endpoint: private,
        has_domain_endpoint: has_domain,
    };
    Some(rec)
}

/// `collect_login_records`.
pub fn collect_login_records(value: &JsonValue) -> (r: (usize, usize, Vec<LoginRecord>))
    ensures
        collected(value.model()) == (r.0 as nat, r.1 as nat, record_models(r.2@)),
        forall|i: int| 0 <= i < r.2@.len() ==> #[trigger] r.2@[i].wf(),
{
    let items = match get_member(value, "items") {
        Some(JsonValue::Array(xs)) => xs,
        _ => {
            let v: Vec<LoginRecord> = Vec::new();
            assert(record_models(v@) =~= Seq::<RecordModel>::empty());
            return (0, 0, v);
        },
    };
    proof {
        lemma_model_array(*items);
    }
    let ghost xs = models(items@);
    let mut records: Vec<LoginRecord> = Vec::new();
    let mut logins: usize = 0;
    let mut i: usize = 0;
    assert(record_models(records@) =~= Seq::<RecordModel>::empty());
    while i < items.len()
        invariant
            i <= xs.len(),
            xs == models(items@),
            record_models(records@) == records_upto(xs, i as int),
            logins as nat == logins_upto(xs, i as int),
            logins <= i,
            forall|k: int| 0 <= k < records@.len() ==> #[trigger] records@[k].wf(),
        decreases xs.len() - i,
    {
        if is_login_item_exec(&items[i]) {
            logins = logins + 1;
        }
        match record_exec(&items[i], i) {
            Some(rec) => {
                let ghost rm = rec.model();
                records.push(rec);
                assert(record_models(records@) =~= records_upto(xs, i as int).push(rm));
            },
            None => {},
        }
        i = i + 1;
    }
    (items.len(), logins, records)
}

} // verus!
