//! Login URIs read as endpoints: normalized host, kind, registered domain,
//! organization label, port.
use vstd::prelude::*;

use crate::text::{
    byte_len, byte_len_at_least, chars_eq, chars_of, count_char, count_chars, find_char,
    find_chars, find_first_of3, find_from, find_last, first_index, first_of3, has_prefix, join,
    join_chars, last_index, lower, lowered, parse_u16, parse_unsigned, slice_chars, split_chars,
    split_on, starts_with, string_of, trim, trim_char, trimmed, trimmed_char,
};

verus! {

/// What kind of endpoint a login URI names.
#[derive(Debug, PartialEq, Eq, Structural, Clone, Copy)]
pub enum EndpointKind {
    Domain,
    Address,
    AndroidPackage,
    Other,
}

/// An IP address.
#[derive(Debug, PartialEq, Eq, Structural, Clone, Copy)]
pub enum IpAddress {
    V4(u8, u8, u8, u8),
    V6(u16, u16, u16, u16, u16, u16, u16, u16),
}

/// What `IpAddr::from_str` makes of a text, `None` where it reports an
/// error.
pub uninterp spec fn parsed_ip(text: Seq<char>) -> Option<IpAddress>;

/// `<IpAddr as FromStr>::from_str`, with the address's octets (IPv4) or
/// segments (IPv6). The result is named `parsed_ip` of the text and nothing
/// more is claimed of it.
#[verifier::external_body]
pub(crate) fn parse_ip(text: &str) -> (r: Option<IpAddress>)
    ensures
        r == parsed_ip(text@),
{
    match text.parse::<core::net::IpAddr>() {
        Ok(core::net::IpAddr::V4(a)) => {
            let o = a.octets();
            Some(IpAddress::V4(o[0], o[1], o[2], o[3]))
        },
        Ok(core::net::IpAddr::V6(a)) => {
            let s = a.segments();
            Some(IpAddress::V6(s[0], s[1], s[2], s[3], s[4], s[5], s[6], s[7]))
        },
        Err(_) => None,
    }
}

/// `char::is_alphanumeric`: the Unicode `Alphabetic` or `Numeric` property.
pub uninterp spec fn is_alphanumeric(c: char) -> bool;

/// `char::is_alphanumeric`; named `is_alphanumeric`, with nothing more
/// claimed of it.
#[verifier::external_body]
pub(crate) fn char_is_alphanumeric(c: char) -> (r: bool)
    ensures
        r == is_alphanumeric(c),
{
    c.is_alphanumeric()
}

/// Private, loopback, link-local and shared (100.64.0.0/10) IPv4 ranges;
/// IPv6 loopback and unique local (fc00::/7) addresses.
pub open spec fn is_private_ip(ip: IpAddress) -> bool {
    match ip {
        IpAddress::V4(a, b, c, d) => {
            ||| a == 10
            ||| a == 172 && 16 <= b <= 31
            ||| a == 192 && b == 168
            ||| a == 127
            ||| a == 169 && b == 254
            ||| a == 100 && 64 <= b <= 127
        },
        IpAddress::V6(s0, s1, s2, s3, s4, s5, s6, s7) => {
            ||| (s0 == 0 && s1 == 0 && s2 == 0 && s3 == 0 && s4 == 0 && s5 == 0 && s6 == 0 && s7
                == 1)
            ||| 0xfc00 <= s0 <= 0xfdff
        },
    }
}

pub fn is_private_ip_exec(ip: IpAddress) -> (r: bool)
    ensures
        r == is_private_ip(ip),
{
    match ip {
        IpAddress::V4(a, b, _c, _d) => a == 10 || (a == 172 && 16 <= b && b <= 31) || (a == 192
            && b == 168) || a == 127 || (a == 169 && b == 254) || (a == 100 && 64 <= b && b <= 127),
        IpAddress::V6(s0, s1, s2, s3, s4, s5, s6, s7) => (s0 == 0 && s1 == 0 && s2 == 0 && s3 == 0
            && s4 == 0 && s5 == 0 && s6 == 0 && s7 == 1) || (0xfc00 <= s0 && s0 <= 0xfdff),
    }
}

/// Labels that say nothing of the organization behind a name.
pub open spec fn is_generic_label(l: Seq<char>) -> bool {
    ||| l == "account"@
    ||| l == "accounts"@
    ||| l == "android"@
    ||| l == "app"@
    ||| l == "auth"@
    ||| l == "blog"@
    ||| l == "cloud"@
    ||| l == "cn"@
    ||| l == "co"@
    ||| l == "com"@
    ||| l == "dev"@
    ||| l == "edu"@
    ||| l == "gov"@
    ||| l == "id"@
    ||| l == "io"@
    ||| l == "jp"@
    ||| l == "login"@
    ||| l == "mail"@
    ||| l == "net"@
    ||| l == "org"@
    ||| l == "sso"@
    ||| l == "uk"@
    ||| l == "web"@
    ||| l == "www"@
}

/// Whether the characters `s` spell the word `w`.
pub fn is_word(s: &[char], w: &str) -> (r: bool)
    ensures
        r == (s@ == w@),
{
    let x = chars_of(w);
    chars_eq(s, x.as_slice())
}

pub fn is_generic_label_exec(l: &[char]) -> (r: bool)
    ensures
        r == is_generic_label(l@),
{
    is_word(l, "account") || is_word(l, "accounts") || is_word(l, "android") || is_word(l, "app")
        || is_word(l, "auth") || is_word(l, "blog") || is_word(l, "cloud") || is_word(l, "cn")
        || is_word(l, "co") || is_word(l, "com") || is_word(l, "dev") || is_word(l, "edu")
        || is_word(l, "gov") || is_word(l, "id") || is_word(l, "io") || is_word(l, "jp")
        || is_word(l, "login") || is_word(l, "mail") || is_word(l, "net") || is_word(l, "org")
        || is_word(l, "sso") || is_word(l, "uk") || is_word(l, "web") || is_word(l, "www")
}

/// Two-label public suffixes under which the registered domain has three
/// labels.
pub open spec fn is_multi_label_suffix(s: Seq<char>) -> bool {
    ||| s == "ac.cn"@
    ||| s == "co.jp"@
    ||| s == "co.uk"@
    ||| s == "com.au"@
    ||| s == "com.cn"@
    ||| s == "com.hk"@
    ||| s == "edu.cn"@
    ||| s == "edu.hk"@
    ||| s == "gov.cn"@
    ||| s == "ne.jp"@
    ||| s == "net.au"@
    ||| s == "net.cn"@
    ||| s == "or.jp"@
    ||| s == "org.cn"@
    ||| s == "org.uk"@
}

pub fn is_multi_label_suffix_exec(s: &[char]) -> (r: bool)
    ensures
        r == is_multi_label_suffix(s@),
{
    is_word(s, "ac.cn") || is_word(s, "co.jp") || is_word(s, "co.uk") || is_word(s, "com.au")
        || is_word(s, "com.cn") || is_word(s, "com.hk") || is_word(s, "edu.cn") || is_word(
        s,
        "edu.hk",
    ) || is_word(s, "gov.cn") || is_word(s, "ne.jp") || is_word(s, "net.au") || is_word(
        s,
        "net.cn",
    ) || is_word(s, "or.jp") || is_word(s, "org.cn") || is_word(s, "org.uk")
}

/// The separator between a URI's scheme and its authority.
pub open spec fn scheme_separator() -> Seq<char> {
    seq![':', '/', '/']
}

/// The part of `s` before the first `/`, `?` or `#`, unless it is empty.
pub open spec fn authority_of(s: Seq<char>) -> Option<Seq<char>> {
    let a = s.take(first_of3(s, '/', '?', '#'));
    if a.len() == 0 {
        None
    } else {
        Some(a)
    }
}

/// `split_scheme_authority`: the scheme before the first `://` (if any) and
/// the authority after it.
pub open spec fn scheme_authority(uri: Seq<char>) -> (Option<Seq<char>>, Option<Seq<char>>) {
    match find_from(uri, scheme_separator(), 0) {
        Some(k) => (Some(uri.take(k)), authority_of(uri.skip(k + 3))),
        None => (None, authority_of(uri)),
    }
}

/// The part of an authority after its last `@`.
pub open spec fn after_userinfo(a: Seq<char>) -> Seq<char> {
    match last_index(a, '@') {
        Some(i) => a.skip(i + 1),
        None => a,
    }
}

/// A port number, as `u16::from_str` reads it.
pub open spec fn port_of(s: Seq<char>) -> Option<u16> {
    match parse_unsigned(s, 65535) {
        Some(n) => Some(n as u16),
        None => None,
    }
}

/// `split_host_port`: a bracketed host and an optional `:port` after the
/// bracket; or, with exactly one `:`, host and port when the port reads as a
/// number; otherwise the whole authority and no port.
pub open spec fn host_port(a: Seq<char>) -> (Seq<char>, Option<u16>) {
    let rest = a.drop_first();
    if a.len() > 0 && a[0] == '[' && first_index(rest, ']') is Some {
        let j = first_index(rest, ']')->0;
        let tail = rest.skip(j + 1);
        let port = if tail.len() > 0 && tail[0] == ':' {
            port_of(tail.drop_first())
        } else {
            None
        };
        (rest.take(j), port)
    } else if count_char(a, ':') == 1 && last_index(a, ':') is Some && port_of(
        a.skip(last_index(a, ':')->0 + 1),
    ) is Some {
        let i = last_index(a, ':')->0;
        (a.take(i), port_of(a.skip(i + 1)))
    } else {
        (a, None)
    }
}

/// `normalize_host`: trimmed of white space, then of dots, then of slashes,
/// lowercased, without a leading `www.`; `None` when nothing is left.
pub open spec fn normalize_host(h: Seq<char>) -> Option<Seq<char>> {
    let n = lower(trim_char(trim_char(trim(h), '.'), '/'));
    if n.len() == 0 {
        None
    } else if has_prefix(n, "www."@) {
        Some(n.skip("www."@.len() as int))
    } else {
        Some(n)
    }
}

/// Index of the first label that is not generic and is at least 3 bytes long.
pub open spec fn first_brand_label(labels: Seq<Seq<char>>, from: int) -> Option<Seq<char>>
    decreases labels.len() - from,
{
    if from < 0 || from >= labels.len() {
        None
    } else if !is_generic_label(labels[from]) && byte_len(labels[from]) >= 3 {
        Some(labels[from])
    } else {
        first_brand_label(labels, from + 1)
    }
}

/// `package_brand_label`: the first label of an Android package name that is
/// not generic and is at least 3 bytes long.
pub open spec fn package_brand_label(package: Seq<char>) -> Option<Seq<char>> {
    first_brand_label(split_on(package, '.'), 0)
}

/// `registered_domain`: the last two labels of a host name, or the last three
/// under a two-label public suffix; `None` for an IP address or a single label.
pub open spec fn registered_domain(host: Seq<char>) -> Option<Seq<char>> {
    let labels = split_on(host, '.');
    let n = labels.len();
    if parsed_ip(host) is Some {
        None
    } else if n < 2 {
        None
    } else if n >= 3 && is_multi_label_suffix(labels[n - 2] + seq!['.'] + labels[n - 1]) {
        Some(join(labels.subrange(n - 3, n as int), "."@))
    } else {
        Some(join(labels.subrange(n - 2, n as int), "."@))
    }
}

/// Model of an endpoint.
pub struct EndpointModel {
    pub host: Seq<char>,
    pub kind: EndpointKind,
    pub registered_domain: Option<Seq<char>>,
    pub brand_label: Option<Seq<char>>,
    pub port: Option<u16>,
    pub is_private_address: bool,
}

/// An endpoint.
#[derive(Debug, Clone)]
pub struct Endpoint {
    pub host: String,
    pub kind: EndpointKind,
    pub registered_domain: Option<String>,
    pub brand_label: Option<String>,
    pub port: Option<u16>,
    pub is_private_address: bool,
}

pub open spec fn opt_view(o: Option<String>) -> Option<Seq<char>> {
    match o {
        Some(s) => Some(s@),
        None => None,
    }
}

impl Endpoint {
    pub open spec fn model(&self) -> EndpointModel {
        EndpointModel {
            host: self.host@,
            kind: self.kind,
            registered_domain: opt_view(self.registered_domain),
            brand_label: opt_view(self.brand_label),
            port: self.port,
            is_private_address: self.is_private_address,
        }
    }
}

/// Whether the scheme names an Android app (`android` or `androidapp`, in
/// any ASCII case).
pub open spec fn is_android_scheme(scheme: Option<Seq<char>>) -> bool {
    match scheme {
        Some(s) => lower(s) == "android"@ || lower(s) == "androidapp"@,
        None => false,
    }
}

/// `parse_endpoint`: the endpoint a login URI names, if it names one.
pub open spec fn parse_endpoint(uri: Seq<char>) -> Option<EndpointModel> {
    let t = trim(uri);
    let (scheme, authority) = scheme_authority(t);
    if t.len() == 0 || authority is None {
        None
    } else {
        let (h, port) = host_port(after_userinfo(authority->0));
        match normalize_host(h) {
            None => None,
            Some(host) => if is_android_scheme(scheme) {
                Some(
                    EndpointModel {
                        host,
                        kind: EndpointKind::AndroidPackage,
                        registered_domain: None,
                        brand_label: package_brand_label(host),
                        port,
                        is_private_address: false,
                    },
                )
            } else if parsed_ip(host) is Some {
                Some(
                    EndpointModel {
                        host,
                        kind: EndpointKind::Address,
                        registered_domain: None,
                        brand_label: None,
                        port,
                        is_private_address: is_private_ip(parsed_ip(host)->0),
                    },
                )
            } else if host.contains('.') {
                let domain = registered_domain(host);
                Some(
                    EndpointModel {
                        host,
                        kind: EndpointKind::Domain,
                        registered_domain: domain,
                        brand_label: match domain {
                            Some(d) => if !is_generic_label(split_on(d, '.')[0]) {
                                Some(split_on(d, '.')[0])
                            } else {
                                None
                            },
                            None => None,
                        },
                        port,
                        is_private_address: false,
                    },
                )
            } else {
                Some(
                    EndpointModel {
                        host,
                        kind: EndpointKind::Other,
                        registered_domain: None,
                        brand_label: None,
                        port,
                        is_private_address: false,
                    },
                )
            },
        }
    }
}

/// `a` followed by `c` and then `b`.
pub fn concat_with(a: &[char], c: char, b: &[char]) -> (r: Vec<char>)
    ensures
        r@ == a@ + seq![c] + b@,
{
    let mut r: Vec<char> = Vec::new();
    let mut i: usize = 0;
    while i < a.len()
        invariant
            i <= a@.len(),
            r@ == a@.take(i as int),
        decreases a@.len() - i,
    {
        r.push(a[i]);
        i = i + 1;
        assert(r@ =~= a@.take(i as int));
    }
    r.push(c);
    let mut j: usize = 0;
    while j < b.len()
        invariant
            j <= b@.len(),
            r@ == a@.take(a@.len() as int) + seq![c] + b@.take(j as int),
        decreases b@.len() - j,
    {
        r.push(b[j]);
        j = j + 1;
        assert(r@ =~= a@.take(a@.len() as int) + seq![c] + b@.take(j as int));
    }
    assert(a@.take(a@.len() as int) =~= a@);
    assert(b@.take(b@.len() as int) =~= b@);
    r
}

/// The views of a list of character vectors.
pub open spec fn views(v: Seq<Vec<char>>) -> Seq<Seq<char>> {
    Seq::new(v.len(), |i: int| v[i]@)
}

fn authority_exec(s: &[char]) -> (r: Option<Vec<char>>)
    ensures
        match r {
            Some(a) => authority_of(s@) == Some(a@),
            None => authority_of(s@) is None,
        },
{
    let end = find_first_of3(s, '/', '?', '#');
    let a = slice_chars(s, 0, end);
    assert(a@ =~= s@.take(end as int));
    if a.len() == 0 {
        None
    } else {
        Some(a)
    }
}

fn scheme_authority_exec(uri: &[char]) -> (r: (Option<Vec<char>>, Option<Vec<char>>))
    ensures
        ({
            let (scheme, authority) = scheme_authority(uri@);
            &&& match r.0 {
                Some(x) => scheme == Some(x@),
                None => scheme is None,
            }
            &&& match r.1 {
                Some(x) => authority == Some(x@),
                None => authority is None,
            }
        }),
{
    let sep = vec![':', '/', '/'];
    assert(sep@ =~= scheme_separator());
    let n = uri.len();
    match find_chars(uri, sep.as_slice()) {
        Some(k) => {
            let scheme = slice_chars(uri, 0, k);
            assert(scheme@ =~= uri@.take(k as int));
            let rest = slice_chars(uri, k + 3, n);
            assert(rest@ =~= uri@.skip(k + 3));
            (Some(scheme), authority_exec(rest.as_slice()))
        },
        None => (None, authority_exec(uri)),
    }
}

fn after_userinfo_exec(a: &[char]) -> (r: Vec<char>)
    ensures
        r@ == after_userinfo(a@),
{
    let n = a.len();
    match find_last(a, '@') {
        Some(i) => {
            let r = slice_chars(a, i + 1, n);
            assert(r@ =~= a@.skip(i + 1));
            r
        },
        None => slice_chars(a, 0, a.len()),
    }
}

fn port_exec(s: &[char]) -> (r: Option<u16>)
    ensures
        r == port_of(s@),
{
    parse_u16(s)
}

fn host_port_exec(a: &[char]) -> (r: (Vec<char>, Option<u16>))
    ensures
        host_port(a@) == (r.0@, r.1),
{
    if a.len() > 0 && a[0] == '[' {
        let rest = slice_chars(a, 1, a.len());
        assert(rest@ =~= a@.drop_first());
        match find_char(rest.as_slice(), ']') {
            Some(j) => {
                let host = slice_chars(rest.as_slice(), 0, j);
                assert(host@ =~= rest@.take(j as int));
                let tail = slice_chars(rest.as_slice(), j + 1, rest.len());
                assert(tail@ =~= rest@.skip(j + 1));
                let port = if tail.len() > 0 && tail[0] == ':' {
                    let digits = slice_chars(tail.as_slice(), 1, tail.len());
                    assert(digits@ =~= tail@.drop_first());
                    port_exec(digits.as_slice())
                } else {
                    None
                };
                return (host, port);
            },
            None => {},
        }
    }
    if count_chars(a, ':') == 1 {
        match find_last(a, ':') {
            Some(i) => {
                let digits = slice_chars(a, i + 1, a.len());
                assert(digits@ =~= a@.skip(i + 1));
                match port_exec(digits.as_slice()) {
                    Some(p) => {
                        let host = slice_chars(a, 0, i);
                        assert(host@ =~= a@.take(i as int));
                        return (host, Some(p));
                    },
                    None => {},
                }
            },
            None => {},
        }
    }
    (slice_chars(a, 0, a.len()), None)
}

fn normalize_host_exec(h: &[char]) -> (r: Option<Vec<char>>)
    ensures
        match r {
            Some(x) => normalize_host(h@) == Some(x@),
            None => normalize_host(h@) is None,
        },
{
    let t = trimmed(h);
    let t1 = trimmed_char(t.as_slice(), '.');
    let t2 = trimmed_char(t1.as_slice(), '/');
    let n = lowered(t2.as_slice());
    if n.len() == 0 {
        return None;
    }
    let www = chars_of("www.");
    if starts_with(n.as_slice(), www.as_slice()) {
        let r = slice_chars(n.as_slice(), www.len(), n.len());
        assert(r@ =~= n@.skip(www@.len() as int));
        Some(r)
    } else {
        Some(n)
    }
}

fn package_brand_label_exec(package: &[char]) -> (r: Option<Vec<char>>)
    ensures
        match r {
            Some(x) => package_brand_label(package@) == Some(x@),
            None => package_brand_label(package@) is None,
        },
{
    let labels = split_chars(package, '.');
    let ghost ls = split_on(package@, '.');
    let mut i: usize = 0;
    while i < labels.len()
        invariant
            i <= labels@.len(),
            labels@.len() == ls.len(),
            forall|k: int| 0 <= k < labels@.len() ==> #[trigger] labels@[k]@ == ls[k],
            first_brand_label(ls, 0) == first_brand_label(ls, i as int),
            ls == split_on(package@, '.'),
        decreases labels@.len() - i,
    {
        assert(labels@[i as int]@ == ls[i as int]);
        if !is_generic_label_exec(labels[i].as_slice()) && byte_len_at_least(
            labels[i].as_slice(),
            3,
        ) {
            let l = slice_chars(labels[i].as_slice(), 0, labels[i].len());
            return Some(l);
        }
        i = i + 1;
    }
    None
}

fn registered_domain_exec(host: &[char]) -> (r: Option<Vec<char>>)
    ensures
        match r {
            Some(x) => registered_domain(host@) == Some(x@),
            None => registered_domain(host@) is None,
        },
{
    let text = string_of(host);
    if parse_ip(text.as_str()).is_some() {
        return None;
    }
    let labels = split_chars(host, '.');
    let ghost ls = split_on(host@, '.');
    assert(views(labels@) =~= ls);
    let n = labels.len();
    if n < 2 {
        return None;
    }
    if n >= 3 {
        let suffix = concat_with(labels[n - 2].as_slice(), '.', labels[n - 1].as_slice());
        if is_multi_label_suffix_exec(suffix.as_slice()) {
            let d = join_chars(&labels, n - 3, n, ".");
            let dc = chars_of(d.as_str());
            return Some(dc);
        }
    }
    let d = join_chars(&labels, n - 2, n, ".");
    let dc = chars_of(d.as_str());
    Some(dc)
}

/// `parse_endpoint`.
pub fn parse_endpoint_exec(uri: &str) -> (r: Option<Endpoint>)
    ensures
        match r {
            Some(e) => parse_endpoint(uri@) == Some(e.model()),
            None => parse_endpoint(uri@) is None,
        },
{
    let u = chars_of(uri);
    let t = trimmed(u.as_slice());
    if t.len() == 0 {
        return None;
    }
    let (scheme, authority) = scheme_authority_exec(t.as_slice());
    let android = match &scheme {
        Some(sc) => {
            let l = lowered(sc.as_slice());
            is_word(l.as_slice(), "android") || is_word(l.as_slice(), "androidapp")
        },
        None => false,
    };
    let authority = match authority {
        Some(a) => a,
        None => {
            return None;
        },
    };
    let a = after_userinfo_exec(authority.as_slice());
    let (h, port) = host_port_exec(a.as_slice());
    let host = match normalize_host_exec(h.as_slice()) {
        Some(x) => x,
        None => {
            return None;
        },
    };
    let host_text = string_of(host.as_slice());
    if android {
        let brand = match package_brand_label_exec(host.as_slice()) {
            Some(b) => Some(string_of(b.as_slice())),
            None => None,
        };
        return Some(
            Endpoint {
                host: host_text,
                kind: EndpointKind::AndroidPackage,
                registered_domain: None,
                brand_label: brand,
                port,
                is_private_address: false,
            },
        );
    }
    match parse_ip(host_text.as_str()) {
        Some(ip) => {
            return Some(
                Endpoint {
                    host: host_text,
                    kind: EndpointKind::Address,
                    registered_domain: None,
                    brand_label: None,
                    port,
                    is_private_address: is_private_ip_exec(ip),
                },
            );
        },
        None => {},
    }
    if find_char(host.as_slice(), '.').is_some() {
        let domain = registered_domain_exec(host.as_slice());
        let brand = match &domain {
            Some(d) => {
                let labels = split_chars(d.as_slice(), '.');
                proof {
                    crate::text::lemma_split_on_nonempty(d@, '.');
                }
                if !is_generic_label_exec(labels[0].as_slice()) {
                    Some(string_of(labels[0].as_slice()))
                } else {
                    None
                }
            },
            None => None,
        };
        let domain_text = match &domain {
            Some(d) => Some(string_of(d.as_slice())),
            None => None,
        };
        return Some(
            Endpoint {
                host: host_text,
                kind: EndpointKind::Domain,
                registered_domain: domain_text,
                brand_label: brand,
                port,
                is_private_address: false,
            },
        );
    }
    Some(
        Endpoint {
            host: host_text,
            kind: EndpointKind::Other,
            registered_domain: None,
            brand_label: None,
            port,
            is_private_address: false,
        },
    )
}

/// The host of a login URI, where it has one: the authority after any user
/// information, without its port, normalized.
pub open spec fn uri_host(uri: Seq<char>) -> Option<Seq<char>> {
    match scheme_authority(trim(uri)).1 {
        Some(a) => normalize_host(host_port(after_userinfo(a)).0),
        None => None,
    }
}

/// The scheme of a login URI in lower case, where it has one.
pub open spec fn uri_scheme_lower(uri: Seq<char>) -> Option<Seq<char>> {
    match scheme_authority(trim(uri)).0 {
        Some(x) => Some(lower(x)),
        None => None,
    }
}

/// Addresses are private exactly in the private IPv4 ranges (10.0.0.0/8,
/// 172.16.0.0/12, 192.168.0.0/16), loopback (127.0.0.0/8), link-local
/// (169.254.0.0/16) and shared address space (100.64.0.0/10), and for IPv6
/// the loopback address `::1` and unique local addresses (fc00::/7). A login
/// URI whose scheme is not an Android one and whose host is an IP address
/// names that address, with no domain or brand, private exactly then.
pub proof fn law_address_endpoints(uri: Seq<char>)
    requires
        uri_host(uri) is Some,
        parsed_ip(uri_host(uri)->0) is Some,
        uri_scheme_lower(uri) != Some("androidapp"@),
        uri_scheme_lower(uri) != Some("android"@),
    ensures
        ({
            let h = uri_host(uri)->0;
            let private = match parsed_ip(h)->0 {
                IpAddress::V4(o1, o2, _o3, _o4) => (o1 == 10u8) || (o1 == 172u8 && o2 >= 16u8 && o2 < 32u8) || (o1
                    == 192u8 && o2 == 168u8) || (o1 == 127u8) || (o1 == 169u8 && o2 == 254u8) || (o1 == 100u8 && o2
                    >= 64u8 && o2 < 128u8),
                IpAddress::V6(g0, g1, g2, g3, g4, g5, g6, g7) => (g0 >= 0xfc00u16 && g0 < 0xfe00u16) || (g0 == 0u16
                    && g1 == 0u16 && g2 == 0u16 && g3 == 0u16 && g4 == 0u16 && g5 == 0u16 && g6 == 0u16 && g7
                    == 1u16),
            };
            &&& parse_endpoint(uri) is Some
            &&& parse_endpoint(uri)->0.host == h
            &&& parse_endpoint(uri)->0.kind == EndpointKind::Address
            &&& parse_endpoint(uri)->0.registered_domain is None
            &&& parse_endpoint(uri)->0.brand_label is None
            &&& parse_endpoint(uri)->0.is_private_address == private
        }),
{
    assert(trim(uri).len() > 0);
}

/// A login URI whose scheme is `android` or `androidapp`, in any ASCII case,
/// names an Android package: its host, with no registered domain, not a
/// private address, and the package's brand label (its first label of at
/// least three characters that says nothing generic).
pub proof fn law_android_endpoints(uri: Seq<char>)
    requires
        uri_host(uri) is Some,
        uri_scheme_lower(uri) == Some("androidapp"@) || uri_scheme_lower(uri) == Some("android"@),
    ensures
        ({
            let h = uri_host(uri)->0;
            &&& parse_endpoint(uri) is Some
            &&& parse_endpoint(uri)->0.host == h
            &&& parse_endpoint(uri)->0.kind == EndpointKind::AndroidPackage
            &&& parse_endpoint(uri)->0.registered_domain is None
            &&& parse_endpoint(uri)->0.brand_label == package_brand_label(h)
            &&& !parse_endpoint(uri)->0.is_private_address
        }),
{
    assert(trim(uri).len() > 0);
}

/// A login URI whose scheme is not an Android one and whose host is a name
/// with a dot (not an IP address) names a domain: its host, not a private
/// address. Its registered domain is the last three labels when the last two
/// are one of the two-label public suffixes ac.cn, co.jp, co.uk, com.au,
/// com.cn, com.hk, edu.cn, edu.hk, gov.cn, ne.jp, net.au, net.cn, or.jp,
/// org.cn, org.uk, and otherwise the last two; its brand label is the
/// registered domain's first label unless that label is generic.
pub proof fn law_domain_endpoints(uri: Seq<char>)
    requires
        uri_host(uri) is Some,
        parsed_ip(uri_host(uri)->0) is None,
        uri_host(uri)->0.contains('.'),
        uri_scheme_lower(uri) != Some("androidapp"@),
        uri_scheme_lower(uri) != Some("android"@),
    ensures
        ({
            let h = uri_host(uri)->0;
            let ls = split_on(h, '.');
            let n = ls.len();
            let last2 = ls[n - 2] + "."@ + ls[n - 1];
            let multi = last2 == "ac.cn"@ || last2 == "co.jp"@ || last2 == "co.uk"@ || last2 == "com.au"@ || last2
                == "com.cn"@ || last2 == "com.hk"@ || last2 == "edu.cn"@ || last2 == "edu.hk"@ || last2 == "gov.cn"@
                || last2 == "ne.jp"@ || last2 == "net.au"@ || last2 == "net.cn"@ || last2 == "or.jp"@ || last2
                == "org.cn"@ || last2 == "org.uk"@;
            let domain = if n < 2 {
                None
            } else if n >= 3 && multi {
                Some(ls[n - 3] + "."@ + last2)
            } else {
                Some(last2)
            };
            let e = parse_endpoint(uri)->0;
            &&& parse_endpoint(uri) is Some
            &&& e.host == h
            &&& e.kind == EndpointKind::Domain
            &&& !e.is_private_address
            &&& e.registered_domain == domain
            &&& e.brand_label == match domain {
                Some(d) => {
                    let g = split_on(d, '.')[0];
                    if g == "account"@ || g == "accounts"@ || g == "android"@ || g == "app"@ || g == "auth"@ || g
                        == "blog"@ || g == "cloud"@ || g == "cn"@ || g == "co"@ || g == "com"@ || g == "dev"@ || g
                        == "edu"@ || g == "gov"@ || g == "id"@ || g == "io"@ || g == "jp"@ || g == "login"@ || g
                        == "mail"@ || g == "net"@ || g == "org"@ || g == "sso"@ || g == "uk"@ || g == "web"@ || g
                        == "www"@ {
                        None
                    } else {
                        Some(g)
                    }
                },
                None => None,
            }
        }),
{
    let h = uri_host(uri)->0;
    assert(trim(uri).len() > 0);
    let ls = split_on(h, '.');
    let n = ls.len() as int;
    if n >= 3 {
        let p3 = ls.subrange(n - 3, n);
        let q2 = seq![ls[n - 3], ls[n - 2]];
        assert(p3.drop_last() =~= q2);
        assert(q2.drop_last() =~= seq![ls[n - 3]]);
        assert(join(seq![ls[n - 3]], "."@) == ls[n - 3]);
        assert(join(q2, "."@) == join(q2.drop_last(), "."@) + "."@ + q2.last());
        assert(join(p3, "."@) == join(p3.drop_last(), "."@) + "."@ + p3.last());
        assert(join(p3, "."@) =~= ls[n - 3] + "."@ + ls[n - 2] + "."@ + ls[n - 1]);
    }
    if n >= 2 {
        let p2 = ls.subrange(n - 2, n);
        assert(p2.drop_last() =~= seq![ls[n - 2]]);
        assert(join(seq![ls[n - 2]], "."@) == ls[n - 2]);
        assert(join(p2, "."@) == join(p2.drop_last(), "."@) + "."@ + p2.last());
        assert(join(p2, "."@) =~= ls[n - 2] + "."@ + ls[n - 1]);
    }
    assert(ls[n - 2] + seq!['.'] + ls[n - 1] =~= ls[n - 2] + "."@ + ls[n - 1]) by {
        reveal_strlit(".");
    }
    assert(ls[n - 3] + "."@ + ls[n - 2] + "."@ + ls[n - 1] =~= ls[n - 3] + "."@ + (ls[n - 2] + "."@ + ls[n - 1]));
}

/// A login URI whose scheme is not an Android one and whose host is neither
/// an IP address nor a name with a dot names some other endpoint: its host,
/// with no domain or brand, not a private address.
pub proof fn law_other_endpoints(uri: Seq<char>)
    requires
        uri_host(uri) is Some,
        parsed_ip(uri_host(uri)->0) is None,
        !uri_host(uri)->0.contains('.'),
        uri_scheme_lower(uri) != Some("androidapp"@),
        uri_scheme_lower(uri) != Some("android"@),
    ensures
        parse_endpoint(uri) is Some,
        parse_endpoint(uri)->0.host == uri_host(uri)->0,
        parse_endpoint(uri)->0.kind == EndpointKind::Other,
        parse_endpoint(uri)->0.registered_domain is None,
        parse_endpoint(uri)->0.brand_label is None,
        !parse_endpoint(uri)->0.is_private_address,
{
    assert(trim(uri).len() > 0);
}

/// Hosts are compared in lower case: the host of a login URI holds no ASCII
/// capital letter.
pub proof fn law_hosts_are_lower_case(uri: Seq<char>)
    requires
        uri_host(uri) is Some,
    ensures
        forall|i: int| 0 <= i < uri_host(uri)->0.len() ==> !('A' <= #[trigger] uri_host(uri)->0[i] <= 'Z'),
{
    let a = scheme_authority(trim(uri)).1->0;
    let n = lower(trim_char(trim_char(trim(host_port(after_userinfo(a)).0), '.'), '/'));
    let h = uri_host(uri)->0;
    assert forall|i: int| 0 <= i < n.len() implies !('A' <= #[trigger] n[i] <= 'Z') by {
        let c = trim_char(trim_char(trim(host_port(after_userinfo(a)).0), '.'), '/')[i];
        assert(n[i] == crate::text::ascii_lower(c));
        if 'A' <= c <= 'Z' {
            assert((c as u32) + 32 > 'Z' as u32);
        }
    }
    assert forall|i: int| 0 <= i < h.len() implies !('A' <= #[trigger] h[i] <= 'Z') by {
        if has_prefix(n, "www."@) {
            assert(h[i] == n[i + 4]) by {
                reveal_strlit("www.");
            }
        } else {
            assert(h[i] == n[i]);
        }
    }
}

} // verus!
