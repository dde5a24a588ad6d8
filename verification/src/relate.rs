//! When two login records are related, and the groups of records that the
//! relation connects.
use vstd::prelude::*;

use crate::endpoint::{parse_ip, parsed_ip};
use crate::records::{tokenize, tokenize_exec, LoginRecord, RecordModel};
use crate::strset::{share_element, sets_intersect, strs};
use crate::text::{
    byte_len, byte_len_at_least, chars_eq, chars_of, find_chars, find_from, join, join_strings,
    lower, lowered, string_of, trim, trimmed,
};

verus! {

/// Why two records are related. Reasons are listed, and summarized, in the
/// order of their texts.
pub open spec fn reason_text(code: nat) -> Seq<char> {
    if code == 0 {
        "matching self-host service evidence"@
    } else if code == 1 {
        "same normalized host or app package"@
    } else if code == 2 {
        "same organization label across domains/packages"@
    } else {
        "same registered domain"@
    }
}

/// Reason code: matching self-host service evidence.
pub open spec fn self_host_reason() -> nat {
    0
}

/// Reason code: same normalized host or app package.
pub open spec fn same_host_reason() -> nat {
    1
}

/// Reason code: same organization label.
pub open spec fn same_label_reason() -> nat {
    2
}

/// Reason code: same registered domain.
pub open spec fn same_domain_reason() -> nat {
    3
}

/// The set of reasons gathered for a group of records.
#[derive(Debug, Clone, Copy)]
pub struct Reasons {
    pub self_host: bool,
    pub same_host: bool,
    pub same_label: bool,
    pub same_domain: bool,
}

pub open spec fn no_reasons() -> Reasons {
    Reasons { self_host: false, same_host: false, same_label: false, same_domain: false }
}

pub open spec fn add_reason(r: Reasons, code: nat) -> Reasons {
    if code == 0 {
        Reasons { self_host: true, ..r }
    } else if code == 1 {
        Reasons { same_host: true, ..r }
    } else if code == 2 {
        Reasons { same_label: true, ..r }
    } else {
        Reasons { same_domain: true, ..r }
    }
}

pub open spec fn union_reasons(a: Reasons, b: Reasons) -> Reasons {
    Reasons {
        self_host: a.self_host || b.self_host,
        same_host: a.same_host || b.same_host,
        same_label: a.same_label || b.same_label,
        same_domain: a.same_domain || b.same_domain,
    }
}

pub fn add_reason_exec(r: Reasons, code: u8) -> (out: Reasons)
    ensures
        out == add_reason(r, code as nat),
{
    if code == 0 {
        Reasons { self_host: true, ..r }
    } else if code == 1 {
        Reasons { same_host: true, ..r }
    } else if code == 2 {
        Reasons { same_label: true, ..r }
    } else {
        Reasons { same_domain: true, ..r }
    }
}

pub fn union_reasons_exec(a: Reasons, b: Reasons) -> (out: Reasons)
    ensures
        out == union_reasons(a, b),
{
    Reasons {
        self_host: a.self_host || b.self_host,
        same_host: a.same_host || b.same_host,
        same_label: a.same_label || b.same_label,
        same_domain: a.same_domain || b.same_domain,
    }
}

/// The texts of the reasons present, in order.
pub open spec fn reason_list(r: Reasons) -> Seq<Seq<char>> {
    let a: Seq<Seq<char>> = if r.self_host {
        seq![reason_text(0)]
    } else {
        Seq::empty()
    };
    let b = if r.same_host {
        a.push(reason_text(1))
    } else {
        a
    };
    let c = if r.same_label {
        b.push(reason_text(2))
    } else {
        b
    };
    if r.same_domain {
        c.push(reason_text(3))
    } else {
        c
    }
}

/// `summarize_reasons`: the reasons joined with `; `, or a default text when
/// there are none.
pub open spec fn summarize_reasons(r: Reasons) -> Seq<char> {
    if reason_list(r).len() == 0 {
        "same account/password with related login endpoints"@
    } else {
        join(reason_list(r), "; "@)
    }
}

pub fn summarize_reasons_exec(r: Reasons) -> (s: String)
    ensures
        s@ == summarize_reasons(r),
{
    let mut list: Vec<String> = Vec::new();
    if r.self_host {
        list.push(crate::text::owned("matching self-host service evidence"));
    }
    if r.same_host {
        list.push(crate::text::owned("same normalized host or app package"));
    }
    if r.same_label {
        list.push(crate::text::owned("same organization label across domains/packages"));
    }
    if r.same_domain {
        list.push(crate::text::owned("same registered domain"));
    }
    assert(strs(list@) =~= reason_list(r));
    if list.len() == 0 {
        return crate::text::owned("same account/password with related login endpoints");
    }
    let n = list.len();
    let s = join_strings(&list, 0, n, "; ");
    assert(Seq::new(list@.len(), |i: int| list@[i]@).subrange(0, n as int) =~= reason_list(r));
    s
}

/// `normalized_non_url_name`: the tokens of a trimmed, lowercased name joined
/// with `-`; empty for a name that holds `://` or is an IP address.
pub open spec fn normalized_non_url_name(name: Seq<char>) -> Seq<char> {
    let n = lower(trim(name));
    if find_from(n, seq![':', '/', '/'], 0) is Some || parsed_ip(n) is Some {
        Seq::empty()
    } else {
        join(tokenize(n), "-"@)
    }
}

pub fn normalized_non_url_name_exec(name: &String) -> (r: String)
    ensures
        r@ == normalized_non_url_name(name@),
{
    let c = chars_of(name.as_str());
    let t = trimmed(c.as_slice());
    let n = lowered(t.as_slice());
    let sep = vec![':', '/', '/'];
    assert(sep@ =~= seq![':', '/', '/']);
    if find_chars(n.as_slice(), sep.as_slice()).is_some() {
        return String::new();
    }
    let text = string_of(n.as_slice());
    if parse_ip(text.as_str()).is_some() {
        return String::new();
    }
    let tokens = tokenize_exec(n.as_slice());
    let len = tokens.len();
    let s = join_strings(&tokens, 0, len, "-");
    assert(Seq::new(tokens@.len(), |i: int| tokens@[i]@).subrange(0, len as int) =~= strs(
        tokens@,
    ));
    s
}

/// Whether two lists of ports share one.
pub open spec fn share_port(a: Seq<u16>, b: Seq<u16>) -> bool {
    exists|i: int| 0 <= i < a.len() && b.contains(#[trigger] a[i])
}

fn ports_intersect(a: &Vec<u16>, b: &Vec<u16>) -> (r: bool)
    ensures
        r == share_port(a@, b@),
{
    let mut i: usize = 0;
    while i < a.len()
        invariant
            i <= a@.len(),
            forall|k: int| 0 <= k < i ==> !b@.contains(#[trigger] a@[k]),
        decreases a@.len() - i,
    {
        let mut j: usize = 0;
        while j < b.len()
            invariant
                i < a@.len(),
                j <= b@.len(),
                forall|k: int| 0 <= k < j ==> b@[k] != a@[i as int],
            decreases b@.len() - j,
        {
            if b[j] == a[i] {
                assert(b@.contains(a@[i as int]));
                return true;
            }
            j = j + 1;
        }
        i = i + 1;
    }
    false
}

/// Whether two sets of tokens share one of at least 3 bytes.
pub open spec fn share_long_token(a: Seq<Seq<char>>, b: Seq<Seq<char>>) -> bool {
    exists|i: int| 0 <= i < a.len() && b.contains(#[trigger] a[i]) && byte_len(a[i]) >= 3
}

fn share_long_token_exec(a: &Vec<String>, b: &Vec<String>) -> (r: bool)
    ensures
        r == share_long_token(strs(a@), strs(b@)),
{
    let mut i: usize = 0;
    while i < a.len()
        invariant
            i <= a@.len(),
            forall|k: int|
                0 <= k < i ==> !(strs(b@).contains(#[trigger] strs(a@)[k]) && byte_len(
                    strs(a@)[k],
                ) >= 3),
        decreases a@.len() - i,
    {
        assert(strs(a@)[i as int] == a@[i as int]@);
        if crate::strset::set_contains(b, a[i].as_str()) {
            let c = chars_of(a[i].as_str());
            if byte_len_at_least(c.as_slice(), 3) {
                return true;
            }
        }
        i = i + 1;
    }
    false
}

/// `self_host_bridge`: a private address on one side and a registered domain
/// on the other, with a shared service token of at least 3 bytes, or with a
/// shared non-default port and the same non-empty normalized name.
pub open spec fn self_host_bridge(l: RecordModel, r: RecordModel) -> bool {
    let private_to_domain = (l.keys.has_private_endpoint && r.keys.has_domain_endpoint) || (
    r.keys.has_private_endpoint && l.keys.has_domain_endpoint);
    if !private_to_domain {
        false
    } else if share_long_token(l.keys.service_tokens, r.keys.service_tokens) {
        true
    } else {
        share_port(l.keys.non_default_ports, r.keys.non_default_ports)
            && normalized_non_url_name(l.name) == normalized_non_url_name(r.name)
            && normalized_non_url_name(l.name).len() != 0
    }
}

fn self_host_bridge_exec(l: &LoginRecord, r: &LoginRecord) -> (b: bool)
    ensures
        b == self_host_bridge(l.model(), r.model()),
{
    let private_to_domain = (l.has_private_endpoint && r.has_domain_endpoint) || (
    r.has_private_endpoint && l.has_domain_endpoint);
    if !private_to_domain {
        return false;
    }
    if share_long_token_exec(&l.service_tokens, &r.service_tokens) {
        return true;
    }
    if !ports_intersect(&l.non_default_ports, &r.non_default_ports) {
        return false;
    }
    let ln = normalized_non_url_name_exec(&l.name);
    let rn = normalized_non_url_name_exec(&r.name);
    let lc = chars_of(ln.as_str());
    let rc = chars_of(rn.as_str());
    chars_eq(lc.as_slice(), rc.as_slice()) && lc.len() != 0
}

/// `relation_reason`: the first reason, if any, for which two records are
/// related.
pub open spec fn relation_reason(l: RecordModel, r: RecordModel) -> Option<nat> {
    if share_element(l.keys.exact_keys, r.keys.exact_keys) {
        Some(same_host_reason())
    } else if share_element(l.keys.domain_keys, r.keys.domain_keys) {
        Some(same_domain_reason())
    } else if share_element(l.keys.brand_keys, r.keys.brand_keys) {
        Some(same_label_reason())
    } else if self_host_bridge(l, r) {
        Some(self_host_reason())
    } else {
        None
    }
}

pub fn relation_reason_exec(l: &LoginRecord, r: &LoginRecord) -> (out: Option<u8>)
    ensures
        match out {
            Some(c) => relation_reason(l.model(), r.model()) == Some(c as nat),
            None => relation_reason(l.model(), r.model()) is None,
        },
{
    if sets_intersect(&l.exact_keys, &r.exact_keys) {
        Some(1)
    } else if sets_intersect(&l.domain_keys, &r.domain_keys) {
        Some(3)
    } else if sets_intersect(&l.brand_keys, &r.brand_keys) {
        Some(2)
    } else if self_host_bridge_exec(l, r) {
        Some(0)
    } else {
        None
    }
}

// ---------------------------------------------------------------------------
// Groups of related records
/// Union-find state over positions `0..n`: the root of each position, and the
/// reasons gathered at each position.
pub struct CompState {
    pub roots: Seq<usize>,
    pub reasons: Seq<Reasons>,
}

/// One pair of positions: when related, the root of `l` becomes the root of
/// every position that had the root of `r`, and both positions gain the
/// reason.
pub open spec fn union_step(st: CompState, l: int, r: int, code: Option<nat>) -> CompState {
    match code {
        None => st,
        Some(c) => {
            let a = st.roots[l];
            let b = st.roots[r];
            CompState {
                roots: Seq::new(
                    st.roots.len(),
                    |p: int|
                        if st.roots[p] == b {
                            a
                        } else {
                            st.roots[p]
                        },
                ),
                reasons: st.reasons.update(l, add_reason(st.reasons[l], c)).update(
                    r,
                    add_reason(st.reasons[r], c),
                ),
            }
        },
    }
}

/// The pairs `(l, r)` with `l < r`, from `(l, r)` onward in order, applied to
/// the state.
pub open spec fn comp_run(
    recs: Seq<RecordModel>,
    idx: Seq<usize>,
    l: int,
    r: int,
    st: CompState,
) -> CompState
    decreases idx.len() - l, idx.len() - r,
{
    if l < 0 || l >= idx.len() {
        st
    } else if r >= idx.len() {
        comp_run(recs, idx, l + 1, l + 2, st)
    } else if r < 0 {
        st
    } else {
        comp_run(
            recs,
            idx,
            l,
            r + 1,
            union_step(st, l, r, relation_reason(recs[idx[l] as int], recs[idx[r] as int])),
        )
    }
}

pub open spec fn initial_comp_state(n: nat) -> CompState {
    CompState { roots: Seq::new(n, |i: int| i as usize), reasons: Seq::new(n, |i: int| no_reasons()) }
}

/// A group of related records: their indexes and the reasons relating them.
pub struct ComponentModel {
    pub indexes: Seq<usize>,
    pub reasons: Reasons,
}

/// Record indexes at the first `k` positions whose root is `v`.
pub open spec fn members_upto(st: CompState, idx: Seq<usize>, v: usize, k: int) -> Seq<usize>
    decreases k,
{
    if k <= 0 {
        Seq::empty()
    } else {
        let init = members_upto(st, idx, v, k - 1);
        if st.roots[k - 1] == v {
            init.push(idx[k - 1])
        } else {
            init
        }
    }
}

/// Reasons at the first `k` positions whose root is `v`.
pub open spec fn reasons_upto(st: CompState, v: usize, k: int) -> Reasons
    decreases k,
{
    if k <= 0 {
        no_reasons()
    } else {
        let init = reasons_upto(st, v, k - 1);
        if st.roots[k - 1] == v {
            union_reasons(init, st.reasons[k - 1])
        } else {
            init
        }
    }
}

/// The groups whose roots are below `v`, in order of root.
pub open spec fn components_upto(st: CompState, idx: Seq<usize>, v: int) -> Seq<ComponentModel>
    decreases v,
{
    if v <= 0 {
        Seq::empty()
    } else {
        let init = components_upto(st, idx, v - 1);
        let m = members_upto(st, idx, (v - 1) as usize, idx.len() as int);
        if m.len() > 0 {
            init.push(
                ComponentModel {
                    indexes: m,
                    reasons: reasons_upto(st, (v - 1) as usize, idx.len() as int),
                },
            )
        } else {
            init
        }
    }
}

/// `related_components`: the records at `idx` grouped by the relation, in
/// order of the groups' union-find roots; each group lists its records in
/// position order with the reasons that relate them.
pub open spec fn related_components(recs: Seq<RecordModel>, idx: Seq<usize>) -> Seq<ComponentModel> {
    components_upto(
        comp_run(recs, idx, 0, 1, initial_comp_state(idx.len())),
        idx,
        idx.len() as int,
    )
}

/// A group of related records.
#[derive(Debug)]
pub struct Component {
    pub indexes: Vec<usize>,
    pub reasons: Reasons,
}

impl Component {
    pub open spec fn model(&self) -> ComponentModel {
        ComponentModel { indexes: self.indexes@, reasons: self.reasons }
    }
}

pub open spec fn component_models(v: Seq<Component>) -> Seq<ComponentModel> {
    Seq::new(v.len(), |i: int| v[i].model())
}

pub open spec fn record_models_of(v: Seq<LoginRecord>) -> Seq<RecordModel> {
    Seq::new(v.len(), |i: int| v[i].model())
}

/// `related_components`.
pub fn related_components_exec(idx: &Vec<usize>, records: &Vec<LoginRecord>) -> (r: Vec<Component>)
    requires
        forall|i: int| 0 <= i < idx@.len() ==> #[trigger] idx@[i] < records@.len(),
    ensures
        component_models(r@) == related_components(record_models_of(records@), idx@),
        forall|i: int| 0 <= i < r@.len() ==> #[trigger] r@[i].indexes@.len() > 0,
{
    let n = idx.len();
    let ghost recs = record_models_of(records@);
    let mut roots: Vec<usize> = Vec::new();
    let mut reasons: Vec<Reasons> = Vec::new();
    let mut i: usize = 0;
    while i < n
        invariant
            i <= n == idx@.len(),
            roots@ == Seq::new(i as nat, |k: int| k as usize),
            reasons@ == Seq::new(i as nat, |k: int| no_reasons()),
        decreases n - i,
    {
        roots.push(i);
        reasons.push(Reasons { self_host: false, same_host: false, same_label: false, same_domain: false });
        i = i + 1;
        assert(roots@ =~= Seq::new(i as nat, |k: int| k as usize));
        assert(reasons@ =~= Seq::new(i as nat, |k: int| no_reasons()));
    }
    let ghost goal = comp_run(recs, idx@, 0, 1, initial_comp_state(n as nat));
    let mut l: usize = 0;
    while l < n
        invariant
            l <= n == idx@.len(),
            recs == record_models_of(records@),
            forall|i: int| 0 <= i < idx@.len() ==> #[trigger] idx@[i] < records@.len(),
            roots@.len() == n,
            reasons@.len() == n,
            goal == comp_run(recs, idx@, l as int, l + 1, CompState { roots: roots@, reasons: reasons@ }),
        decreases n - l,
    {
        let mut r: usize = l + 1;
        while r < n
            invariant
                l < n == idx@.len(),
                l + 1 <= r <= n,
                recs == record_models_of(records@),
                forall|i: int| 0 <= i < idx@.len() ==> #[trigger] idx@[i] < records@.len(),
                roots@.len() == n,
                reasons@.len() == n,
                goal == comp_run(recs, idx@, l as int, r as int, CompState { roots: roots@, reasons: reasons@ }),
            decreases n - r,
        {
            let ghost st = CompState { roots: roots@, reasons: reasons@ };
            let code = relation_reason_exec(&records[idx[l]], &records[idx[r]]);
            match code {
                Some(c) => {
                    let a = roots[l];
                    let b = roots[r];
                    let mut p: usize = 0;
                    while p < n
                        invariant
                            p <= n,
                            roots@.len() == n,
                            st.roots.len() == n,
                            a == st.roots[l as int],
                            b == st.roots[r as int],
                            forall|q: int| 0 <= q < p ==> #[trigger] roots@[q] == (if st.roots[q] == b {
                                a
                            } else {
                                st.roots[q]
                            }),
                            forall|q: int| p <= q < n ==> #[trigger] roots@[q] == st.roots[q],
                        decreases n - p,
                    {
                        if roots[p] == b {
                            roots.set(p, a);
                        }
                        p = p + 1;
                    }
                    let rl = add_reason_exec(reasons[l], c);
                    reasons.set(l, rl);
                    let rr = add_reason_exec(reasons[r], c);
                    reasons.set(r, rr);
                    assert(roots@ =~= union_step(st, l as int, r as int, Some(c as nat)).roots);
                    assert(reasons@ =~= union_step(st, l as int, r as int, Some(c as nat)).reasons);
                },
                None => {},
            }
            r = r + 1;
        }
        l = l + 1;
    }
    let ghost fin = CompState { roots: roots@, reasons: reasons@ };
    assert(goal == fin);
    let mut out: Vec<Component> = Vec::new();
    let mut v: usize = 0;
    assert(component_models(out@) =~= components_upto(fin, idx@, 0));
    while v < n
        invariant
            v <= n == idx@.len(),
            fin == (CompState { roots: roots@, reasons: reasons@ }),
            roots@.len() == n,
            reasons@.len() == n,
            component_models(out@) == components_upto(fin, idx@, v as int),
            forall|i: int| 0 <= i < out@.len() ==> #[trigger] out@[i].indexes@.len() > 0,
        decreases n - v,
    {
        let mut members: Vec<usize> = Vec::new();
        let mut rs = Reasons { self_host: false, same_host: false, same_label: false, same_domain: false };
        let mut p: usize = 0;
        while p < n
            invariant
                p <= n == idx@.len(),
                roots@.len() == n,
                reasons@.len() == n,
                fin == (CompState { roots: roots@, reasons: reasons@ }),
                members@ == members_upto(fin, idx@, v, p as int),
                rs == reasons_upto(fin, v, p as int),
            decreases n - p,
        {
            if roots[p] == v {
                members.push(idx[p]);
                rs = union_reasons_exec(rs, reasons[p]);
            }
            p = p + 1;
        }
        if members.len() > 0 {
            let ghost cm = ComponentModel { indexes: members@, reasons: rs };
            out.push(Component { indexes: members, reasons: rs });
            assert(component_models(out@) =~= components_upto(fin, idx@, v as int).push(cm));
        }
        v = v + 1;
    }
    out
}

// ---------------------------------------------------------------------------
// The groups partition the records
/// Number of records held by the groups.
pub open spec fn comp_total(cs: Seq<ComponentModel>) -> nat
    decreases cs.len(),
{
    if cs.len() == 0 {
        0
    } else {
        comp_total(cs.drop_last()) + cs.last().indexes.len()
    }
}

/// Number of records held by the groups of more than one record.
pub open spec fn shared_total(cs: Seq<ComponentModel>) -> nat
    decreases cs.len(),
{
    if cs.len() == 0 {
        0
    } else {
        shared_total(cs.drop_last()) + if cs.last().indexes.len() > 1 {
            cs.last().indexes.len()
        } else {
            0
        }
    }
}

pub proof fn lemma_shared_total_bound(cs: Seq<ComponentModel>)
    ensures
        shared_total(cs) <= comp_total(cs),
    decreases cs.len(),
{
    if cs.len() > 0 {
        lemma_shared_total_bound(cs.drop_last());
    }
}

/// Number of the first `k` positions whose root is below `v`.
spec fn roots_below(roots: Seq<usize>, v: int, k: int) -> nat
    decreases k,
{
    if k <= 0 {
        0
    } else {
        roots_below(roots, v, k - 1) + if roots[k - 1] < v {
            1nat
        } else {
            0nat
        }
    }
}

proof fn lemma_comp_run_bounded(recs: Seq<RecordModel>, idx: Seq<usize>, l: int, r: int, st: CompState)
    requires
        st.roots.len() == idx.len(),
        forall|p: int| 0 <= p < idx.len() ==> #[trigger] st.roots[p] < idx.len(),
    ensures
        comp_run(recs, idx, l, r, st).roots.len() == idx.len(),
        forall|p: int|
            0 <= p < idx.len() ==> #[trigger] comp_run(recs, idx, l, r, st).roots[p] < idx.len(),
    decreases idx.len() - l, idx.len() - r,
{
    if l < 0 || l >= idx.len() {
    } else if r >= idx.len() {
        lemma_comp_run_bounded(recs, idx, l + 1, l + 2, st);
    } else if r < 0 {
    } else {
        let next = union_step(st, l, r, relation_reason(recs[idx[l] as int], recs[idx[r] as int]));
        assert forall|p: int| 0 <= p < idx.len() implies #[trigger] next.roots[p] < idx.len() by {}
        lemma_comp_run_bounded(recs, idx, l, r + 1, next);
    }
}

proof fn lemma_members_count(st: CompState, idx: Seq<usize>, v: int, k: int)
    requires
        0 <= v <= usize::MAX,
        0 <= k <= st.roots.len(),
    ensures
        roots_below(st.roots, v + 1, k) == roots_below(st.roots, v, k) + members_upto(
            st,
            idx,
            v as usize,
            k,
        ).len(),
    decreases k,
{
    if k > 0 {
        lemma_members_count(st, idx, v, k - 1);
    }
}

proof fn lemma_components_count(st: CompState, idx: Seq<usize>, v: int)
    requires
        0 <= v <= idx.len() <= usize::MAX,
        st.roots.len() == idx.len(),
    ensures
        comp_total(components_upto(st, idx, v)) == roots_below(st.roots, v, idx.len() as int),
    decreases v,
{
    if v == 0 {
        lemma_roots_none_below(st.roots, idx.len() as int);
    } else {
        lemma_components_count(st, idx, v - 1);
        lemma_members_count(st, idx, v - 1, idx.len() as int);
        let init = components_upto(st, idx, v - 1);
        let m = members_upto(st, idx, (v - 1) as usize, idx.len() as int);
        if m.len() > 0 {
            let c = ComponentModel { indexes: m, reasons: reasons_upto(st, (v - 1) as usize, idx.len() as int) };
            assert(init.push(c).drop_last() =~= init);
        }
    }
}

proof fn lemma_roots_none_below(roots: Seq<usize>, k: int)
    ensures
        roots_below(roots, 0, k) == 0,
    decreases k,
{
    if k > 0 {
        lemma_roots_none_below(roots, k - 1);
    }
}

proof fn lemma_roots_all_below(roots: Seq<usize>, v: int, k: int)
    requires
        0 <= k <= roots.len(),
        forall|p: int| 0 <= p < k ==> #[trigger] roots[p] < v,
    ensures
        roots_below(roots, v, k) == k,
    decreases k,
{
    if k > 0 {
        lemma_roots_all_below(roots, v, k - 1);
    }
}

/// The groups of related records hold each of the given records once.
pub proof fn lemma_components_partition(recs: Seq<RecordModel>, idx: Seq<usize>)
    requires
        idx.len() <= usize::MAX,
    ensures
        comp_total(related_components(recs, idx)) == idx.len(),
{
    let n = idx.len();
    let init = initial_comp_state(n);
    lemma_comp_run_bounded(recs, idx, 0, 1, init);
    let fin = comp_run(recs, idx, 0, 1, init);
    lemma_components_count(fin, idx, n as int);
    lemma_roots_all_below(fin.roots, n as int, n as int);
}

proof fn lemma_members_bounded(st: CompState, idx: Seq<usize>, v: usize, k: int, bound: int)
    requires
        0 <= k <= idx.len(),
        forall|i: int| 0 <= i < idx.len() ==> #[trigger] idx[i] < bound,
    ensures
        forall|j: int|
            0 <= j < members_upto(st, idx, v, k).len() ==> #[trigger] members_upto(st, idx, v, k)[j] < bound,
    decreases k,
{
    if k > 0 {
        lemma_members_bounded(st, idx, v, k - 1, bound);
        let init = members_upto(st, idx, v, k - 1);
        let m = members_upto(st, idx, v, k);
        assert forall|j: int| 0 <= j < m.len() implies #[trigger] m[j] < bound by {
            if j < init.len() {
                assert(m[j] == init[j]);
            }
        }
    }
}

proof fn lemma_components_upto_bounded(st: CompState, idx: Seq<usize>, v: int, bound: int)
    requires
        0 <= v <= usize::MAX + 1,
        forall|i: int| 0 <= i < idx.len() ==> #[trigger] idx[i] < bound,
    ensures
        forall|c: int, j: int|
            0 <= c < components_upto(st, idx, v).len() && 0 <= j < components_upto(st, idx, v)[c].indexes.len()
                ==> #[trigger] components_upto(st, idx, v)[c].indexes[j] < bound,
        forall|c: int|
            0 <= c < components_upto(st, idx, v).len() ==> #[trigger] components_upto(st, idx, v)[c].indexes.len() > 0,
    decreases v,
{
    if v > 0 {
        lemma_components_upto_bounded(st, idx, v - 1, bound);
        lemma_members_bounded(st, idx, (v - 1) as usize, idx.len() as int, bound);
        let init = components_upto(st, idx, v - 1);
        let out = components_upto(st, idx, v);
        assert forall|c: int, j: int| 0 <= c < out.len() && 0 <= j < out[c].indexes.len() implies
            #[trigger] out[c].indexes[j] < bound by {
            if c < init.len() {
                assert(out[c] == init[c]);
            }
        }
        assert forall|c: int| 0 <= c < out.len() implies #[trigger] out[c].indexes.len() > 0 by {
            if c < init.len() {
                assert(out[c] == init[c]);
            }
        }
    }
}

/// Every record of a group of related records is one of the given records.
pub proof fn lemma_components_bounded(recs: Seq<RecordModel>, idx: Seq<usize>, bound: int)
    requires
        idx.len() <= usize::MAX,
        forall|i: int| 0 <= i < idx.len() ==> #[trigger] idx[i] < bound,
    ensures
        forall|c: int, j: int|
            0 <= c < related_components(recs, idx).len() && 0 <= j < related_components(recs, idx)[c].indexes.len()
                ==> #[trigger] related_components(recs, idx)[c].indexes[j] < bound,
        forall|c: int|
            0 <= c < related_components(recs, idx).len() ==> #[trigger] related_components(recs, idx)[c].indexes.len() > 0,
{
    let fin = comp_run(recs, idx, 0, 1, initial_comp_state(idx.len()));
    lemma_components_upto_bounded(fin, idx, idx.len() as int, bound);
}

/// The groups of the first `k` groups hold no more than all the groups.
pub proof fn lemma_comp_total_prefix(cs: Seq<ComponentModel>, k: int)
    requires
        0 <= k <= cs.len(),
    ensures
        comp_total(cs.take(k)) <= comp_total(cs),
        shared_total(cs.take(k)) <= shared_total(cs),
    decreases cs.len(),
{
    if k < cs.len() {
        lemma_comp_total_prefix(cs.drop_last(), k);
        assert(cs.drop_last().take(k) =~= cs.take(k));
    } else {
        assert(cs.take(k) =~= cs);
    }
}

/// No group holds more records than all the groups together.
pub proof fn lemma_comp_total_each(cs: Seq<ComponentModel>)
    ensures
        forall|c: int| 0 <= c < cs.len() ==> #[trigger] cs[c].indexes.len() <= comp_total(cs),
    decreases cs.len(),
{
    if cs.len() > 0 {
        lemma_comp_total_each(cs.drop_last());
        assert forall|c: int| 0 <= c < cs.len() implies #[trigger] cs[c].indexes.len() <= comp_total(cs) by {
            if c < cs.len() - 1 {
                assert(cs[c] == cs.drop_last()[c]);
            }
        }
    }
}

proof fn lemma_members_from(st: CompState, idx: Seq<usize>, v: usize, k: int)
    requires
        0 <= k <= idx.len(),
    ensures
        forall|j: int|
            0 <= j < members_upto(st, idx, v, k).len() ==> idx.contains(#[trigger] members_upto(st, idx, v, k)[j]),
    decreases k,
{
    if k > 0 {
        lemma_members_from(st, idx, v, k - 1);
        let init = members_upto(st, idx, v, k - 1);
        let m = members_upto(st, idx, v, k);
        assert forall|j: int| 0 <= j < m.len() implies idx.contains(#[trigger] m[j]) by {
            if j < init.len() {
                assert(m[j] == init[j]);
            } else {
                assert(idx[k - 1] == m[j]);
            }
        }
    }
}

proof fn lemma_components_upto_from(st: CompState, idx: Seq<usize>, v: int)
    requires
        0 <= v <= usize::MAX + 1,
    ensures
        forall|c: int, j: int|
            0 <= c < components_upto(st, idx, v).len() && 0 <= j < components_upto(st, idx, v)[c].indexes.len()
                ==> idx.contains(#[trigger] components_upto(st, idx, v)[c].indexes[j]),
    decreases v,
{
    if v > 0 {
        lemma_components_upto_from(st, idx, v - 1);
        lemma_members_from(st, idx, (v - 1) as usize, idx.len() as int);
        let init = components_upto(st, idx, v - 1);
        let out = components_upto(st, idx, v);
        assert forall|c: int, j: int| 0 <= c < out.len() && 0 <= j < out[c].indexes.len() implies idx.contains(
            #[trigger] out[c].indexes[j],
        ) by {
            if c < init.len() {
                assert(out[c] == init[c]);
            }
        }
    }
}

/// Every record of a group of related records is one of the given records.
pub proof fn lemma_components_from(recs: Seq<RecordModel>, idx: Seq<usize>)
    requires
        idx.len() <= usize::MAX,
    ensures
        forall|c: int, j: int|
            0 <= c < related_components(recs, idx).len() && 0 <= j < related_components(recs, idx)[c].indexes.len()
                ==> idx.contains(#[trigger] related_components(recs, idx)[c].indexes[j]),
{
    let fin = comp_run(recs, idx, 0, 1, initial_comp_state(idx.len()));
    lemma_components_upto_from(fin, idx, idx.len() as int);
}

} // verus!
