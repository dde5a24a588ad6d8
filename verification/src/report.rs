//! What a report says of a group of login records: its items, and a short
//! description of the service they belong to.
use vstd::prelude::*;

use crate::endpoint::EndpointModel;
use crate::group::{arrange, lemma_sorted_order, sort_key_view, sort_key_views, sort_order, sorted_order};
use crate::records::{LoginRecord, RecordModel};
use crate::relate::record_models_of;
use crate::strset::{ascending, set_add, set_insert, strs};
use crate::text::{decimal, fmt_decimal, join, join_strings, owned, push_str};

verus! {

/// One item of a group, as a report lists it.
#[derive(Debug, Clone)]
pub struct ReportItem {
    pub item_index: usize,
    pub name: String,
    pub hosts: Vec<String>,
    pub uris: Vec<String>,
}

pub struct ReportItemModel {
    pub item_index: nat,
    pub name: Seq<char>,
    pub hosts: Seq<Seq<char>>,
    pub uris: Seq<Seq<char>>,
}

impl ReportItem {
    pub open spec fn model(&self) -> ReportItemModel {
        ReportItemModel {
            item_index: self.item_index as nat,
            name: self.name@,
            hosts: strs(self.hosts@),
            uris: strs(self.uris@),
        }
    }
}

pub open spec fn item_models(v: Seq<ReportItem>) -> Seq<ReportItemModel> {
    Seq::new(v.len(), |i: int| v[i].model())
}

/// The distinct hosts of the endpoints, in order.
pub open spec fn hosts_of(eps: Seq<EndpointModel>) -> Seq<Seq<char>>
    decreases eps.len(),
{
    if eps.len() == 0 {
        Seq::empty()
    } else {
        set_insert(hosts_of(eps.drop_last()), eps.last().host)
    }
}

/// The item that a record is reported as.
pub open spec fn report_item(r: RecordModel) -> ReportItemModel {
    ReportItemModel { item_index: r.item_index, name: r.name, hosts: hosts_of(r.endpoints), uris: r.uris }
}

/// Records are listed by name, then by item index.
pub open spec fn name_key(r: RecordModel) -> (Seq<char>, Seq<char>, nat) {
    (r.name, Seq::empty(), r.item_index)
}

/// Positions of the records sorted by name, then item index.
pub open spec fn record_order(rs: Seq<RecordModel>) -> Seq<usize> {
    sorted_order(Seq::new(rs.len(), |i: int| name_key(rs[i])), rs.len() as int)
}

/// `component_records`: the records sorted by name, then item index.
pub open spec fn sort_records(rs: Seq<RecordModel>) -> Seq<RecordModel> {
    arrange(rs, record_order(rs))
}

/// `report_items`: the records' items, sorted by name, then item index.
pub open spec fn report_items(rs: Seq<RecordModel>) -> Seq<ReportItemModel> {
    arrange(Seq::new(rs.len(), |i: int| report_item(rs[i])), record_order(rs))
}

/// The records at the given indexes.
pub open spec fn selected(recs: Seq<RecordModel>, sel: Seq<usize>) -> Seq<RecordModel> {
    Seq::new(sel.len(), |i: int| recs[sel[i] as int])
}

/// Sorting keeps the number of records.
pub proof fn lemma_report_lens(rs: Seq<RecordModel>)
    requires
        rs.len() <= usize::MAX,
    ensures
        record_order(rs).len() == rs.len(),
        sort_records(rs).len() == rs.len(),
        report_items(rs).len() == rs.len(),
{
    lemma_sorted_order(Seq::new(rs.len(), |i: int| name_key(rs[i])), rs.len() as int);
}

// ---------------------------------------------------------------------------
// Service summary
/// Registered domains, brand labels and hosts seen so far, each an ordered set.
pub struct Labels {
    pub domains: Seq<Seq<char>>,
    pub brands: Seq<Seq<char>>,
    pub hosts: Seq<Seq<char>>,
}

pub open spec fn no_labels() -> Labels {
    Labels { domains: Seq::empty(), brands: Seq::empty(), hosts: Seq::empty() }
}

pub open spec fn add_endpoint_labels(acc: Labels, e: EndpointModel) -> Labels {
    Labels {
        domains: match e.registered_domain {
            Some(d) => set_insert(acc.domains, d),
            None => acc.domains,
        },
        brands: match e.brand_label {
            Some(b) => set_insert(acc.brands, b),
            None => acc.brands,
        },
        hosts: set_insert(acc.hosts, e.host),
    }
}

pub open spec fn endpoint_labels(acc: Labels, eps: Seq<EndpointModel>) -> Labels
    decreases eps.len(),
{
    if eps.len() == 0 {
        acc
    } else {
        add_endpoint_labels(endpoint_labels(acc, eps.drop_last()), eps.last())
    }
}

/// Labels of all endpoints of the records.
pub open spec fn record_labels(rs: Seq<RecordModel>) -> Labels
    decreases rs.len(),
{
    if rs.len() == 0 {
        no_labels()
    } else {
        endpoint_labels(record_labels(rs.drop_last()), rs.last().endpoints)
    }
}

/// The distinct names of the records, in order.
pub open spec fn names_of(rs: Seq<RecordModel>) -> Seq<Seq<char>>
    decreases rs.len(),
{
    if rs.len() == 0 {
        Seq::empty()
    } else {
        set_insert(names_of(rs.drop_last()), rs.last().name)
    }
}

/// `join_limited`: at most `limit` values joined with ", ", followed by how
/// many were left out; "(no host)" when there are none.
pub open spec fn join_limited(values: Seq<Seq<char>>, limit: nat) -> Seq<char> {
    if values.len() == 0 {
        "(no host)"@
    } else if values.len() <= limit {
        join(values, ", "@)
    } else {
        join(values.take(limit as int), ", "@) + ", +"@ + decimal((values.len() - limit) as nat) + " more"@
    }
}

/// `service_summary`: the one registered domain; else the domains; else the
/// one brand label; else the hosts; else the names.
pub open spec fn service_summary(rs: Seq<RecordModel>) -> Seq<char> {
    let l = record_labels(rs);
    if l.domains.len() == 1 {
        l.domains[0]
    } else if l.domains.len() > 1 {
        join_limited(l.domains, 5)
    } else if l.brands.len() == 1 {
        l.brands[0]
    } else if l.hosts.len() > 0 {
        join_limited(l.hosts, 5)
    } else {
        join_limited(names_of(rs), 5)
    }
}

// ---------------------------------------------------------------------------
// Executable
/// `join_limited`.
pub fn join_limited_exec(values: &Vec<String>, limit: usize) -> (r: String)
    ensures
        r@ == join_limited(strs(values@), limit as nat),
{
    let ghost all = strs(values@);
    assert(Seq::new(values@.len(), |i: int| values@[i]@) == all);
    if values.len() == 0 {
        return owned("(no host)");
    }
    if values.len() <= limit {
        let r = join_strings(values, 0, values.len(), ", ");
        assert(all.subrange(0, values@.len() as int) =~= all);
        r
    } else {
        let mut r = join_strings(values, 0, limit, ", ");
        assert(all.subrange(0, limit as int) =~= all.take(limit as int));
        push_str(&mut r, ", +");
        let extra = fmt_decimal((values.len() - limit) as u64);
        push_str(&mut r, extra.as_str());
        push_str(&mut r, " more");
        r
    }
}

/// The distinct hosts of the endpoints.
fn hosts_exec(r: &LoginRecord) -> (out: Vec<String>)
    ensures
        strs(out@) == hosts_of(r.model().endpoints),
        ascending(strs(out@)),
{
    let ghost eps = r.model().endpoints;
    let mut out: Vec<String> = Vec::new();
    let mut i: usize = 0;
    assert(eps.take(0) =~= Seq::<EndpointModel>::empty());
    while i < r.endpoints.len()
        invariant
            eps == r.model().endpoints,
            i <= eps.len(),
            ascending(strs(out@)),
            strs(out@) == hosts_of(eps.take(i as int)),
        decreases eps.len() - i,
    {
        assert(eps.take(i + 1).drop_last() =~= eps.take(i as int));
        set_add(&mut out, r.endpoints[i].host.clone());
        i = i + 1;
    }
    assert(eps.take(i as int) =~= eps);
    out
}

fn copy_list(v: &Vec<String>) -> (r: Vec<String>)
    ensures
        strs(r@) == strs(v@),
{
    let mut out: Vec<String> = Vec::new();
    let mut i: usize = 0;
    while i < v.len()
        invariant
            i <= v@.len(),
            out@.len() == i,
            forall|k: int| 0 <= k < i ==> #[trigger] out@[k]@ == v@[k]@,
        decreases v@.len() - i,
    {
        out.push(v[i].clone());
        i = i + 1;
    }
    assert(strs(out@) =~= strs(v@));
    out
}

/// The item that a record is reported as.
pub fn report_item_exec(r: &LoginRecord) -> (out: ReportItem)
    ensures
        out.model() == report_item(r.model()),
{
    ReportItem {
        item_index: r.item_index,
        name: r.name.clone(),
        hosts: hosts_exec(r),
        uris: copy_list(&r.uris),
    }
}

/// The selection sorted by the records' names, then item indexes.
pub fn sort_selection(records: &Vec<LoginRecord>, sel: &Vec<usize>) -> (out: Vec<usize>)
    requires
        forall|i: int| 0 <= i < sel@.len() ==> #[trigger] sel@[i] < records@.len(),
    ensures
        out@ == arrange(sel@, record_order(selected(record_models_of(records@), sel@))),
        selected(record_models_of(records@), out@) == sort_records(
            selected(record_models_of(records@), sel@),
        ),
        out@.len() == sel@.len(),
        forall|i: int| 0 <= i < out@.len() ==> #[trigger] out@[i] < records@.len(),
{
    let ghost rs = selected(record_models_of(records@), sel@);
    let mut keys: Vec<(String, String, usize)> = Vec::new();
    let mut i: usize = 0;
    while i < sel.len()
        invariant
            i <= sel@.len(),
            rs == selected(record_models_of(records@), sel@),
            forall|k: int| 0 <= k < sel@.len() ==> #[trigger] sel@[k] < records@.len(),
            keys@.len() == i,
            forall|k: int| 0 <= k < i ==> #[trigger] sort_key_view(keys@[k]) == name_key(rs[k]),
        decreases sel@.len() - i,
    {
        let r = &records[sel[i]];
        let empty = String::new();
        assert(empty@ =~= Seq::<char>::empty());
        keys.push((r.name.clone(), empty, r.item_index));
        i = i + 1;
    }
    assert(sort_key_views(keys@) =~= Seq::new(rs.len(), |k: int| name_key(rs[k])));
    let order = sort_order(&keys);
    let mut out: Vec<usize> = Vec::new();
    let mut j: usize = 0;
    while j < order.len()
        invariant
            j <= order@.len() == sel@.len(),
            forall|k: int| 0 <= k < order@.len() ==> #[trigger] order@[k] < sel@.len(),
            forall|k: int| 0 <= k < sel@.len() ==> #[trigger] sel@[k] < records@.len(),
            out@ == arrange(sel@, order@).take(j as int),
        decreases order@.len() - j,
    {
        out.push(sel[order[j]]);
        j = j + 1;
        assert(out@ =~= arrange(sel@, order@).take(j as int));
    }
    assert(out@ =~= arrange(sel@, order@));
    assert(selected(record_models_of(records@), out@) =~= sort_records(rs));
    out
}

/// `report_items` of the selected records.
pub fn report_items_exec(records: &Vec<LoginRecord>, sel: &Vec<usize>) -> (out: Vec<ReportItem>)
    requires
        forall|i: int| 0 <= i < sel@.len() ==> #[trigger] sel@[i] < records@.len(),
    ensures
        item_models(out@) == report_items(selected(record_models_of(records@), sel@)),
{
    let ghost rs = selected(record_models_of(records@), sel@);
    let sorted = sort_selection(records, sel);
    let mut out: Vec<ReportItem> = Vec::new();
    let mut j: usize = 0;
    while j < sorted.len()
        invariant
            j <= sorted@.len(),
            forall|k: int| 0 <= k < sorted@.len() ==> #[trigger] sorted@[k] < records@.len(),
            out@.len() == j,
            forall|k: int| 0 <= k < j ==> #[trigger] out@[k].model() == report_item(
                record_models_of(records@)[sorted@[k] as int],
            ),
        decreases sorted@.len() - j,
    {
        out.push(report_item_exec(&records[sorted[j]]));
        j = j + 1;
    }
    proof {
        let order = record_order(rs);
        lemma_sorted_order(Seq::new(rs.len(), |i: int| name_key(rs[i])), rs.len() as int);
        assert(item_models(out@) =~= report_items(rs)) by {
            assert forall|k: int| 0 <= k < out@.len() implies item_models(out@)[k] == report_items(rs)[k] by {
                assert(sorted@[k] == sel@[order[k] as int]);
            }
        }
    }
    out
}

fn add_labels(domains: &mut Vec<String>, brands: &mut Vec<String>, hosts: &mut Vec<String>, r: &LoginRecord)
    requires
        ascending(strs(old(domains)@)),
        ascending(strs(old(brands)@)),
        ascending(strs(old(hosts)@)),
    ensures
        ascending(strs(final(domains)@)),
        ascending(strs(final(brands)@)),
        ascending(strs(final(hosts)@)),
        (Labels { domains: strs(final(domains)@), brands: strs(final(brands)@), hosts: strs(final(hosts)@) })
            == endpoint_labels(
            Labels { domains: strs(old(domains)@), brands: strs(old(brands)@), hosts: strs(old(hosts)@) },
            r.model().endpoints,
        ),
{
    let ghost eps = r.model().endpoints;
    let ghost acc0 = Labels { domains: strs(domains@), brands: strs(brands@), hosts: strs(hosts@) };
    let mut i: usize = 0;
    assert(eps.take(0) =~= Seq::<EndpointModel>::empty());
    while i < r.endpoints.len()
        invariant
            eps == r.model().endpoints,
            i <= eps.len(),
            ascending(strs(domains@)),
            ascending(strs(brands@)),
            ascending(strs(hosts@)),
            (Labels { domains: strs(domains@), brands: strs(brands@), hosts: strs(hosts@) }) == endpoint_labels(
                acc0,
                eps.take(i as int),
            ),
        decreases eps.len() - i,
    {
        assert(eps.take(i + 1).drop_last() =~= eps.take(i as int));
        let e = &r.endpoints[i];
        match &e.registered_domain {
            Some(d) => set_add(domains, d.clone()),
            None => {},
        }
        match &e.brand_label {
            Some(b) => set_add(brands, b.clone()),
            None => {},
        }
        set_add(hosts, e.host.clone());
        i = i + 1;
    }
    assert(eps.take(i as int) =~= eps);
}

/// `service_summary` of the selected records.
pub fn service_summary_exec(records: &Vec<LoginRecord>, sel: &Vec<usize>) -> (out: String)
    requires
        forall|i: int| 0 <= i < sel@.len() ==> #[trigger] sel@[i] < records@.len(),
    ensures
        out@ == service_summary(selected(record_models_of(records@), sel@)),
{
    let ghost rs = selected(record_models_of(records@), sel@);
    let mut domains: Vec<String> = Vec::new();
    let mut brands: Vec<String> = Vec::new();
    let mut hosts: Vec<String> = Vec::new();
    let mut names: Vec<String> = Vec::new();
    let mut i: usize = 0;
    assert(rs.take(0) =~= Seq::<RecordModel>::empty());
    assert(strs(domains@) =~= Seq::<Seq<char>>::empty());
    assert(strs(brands@) =~= Seq::<Seq<char>>::empty());
    assert(strs(hosts@) =~= Seq::<Seq<char>>::empty());
    assert(strs(names@) =~= Seq::<Seq<char>>::empty());
    while i < sel.len()
        invariant
            i <= sel@.len(),
            rs == selected(record_models_of(records@), sel@),
            forall|k: int| 0 <= k < sel@.len() ==> #[trigger] sel@[k] < records@.len(),
            ascending(strs(domains@)),
            ascending(strs(brands@)),
            ascending(strs(hosts@)),
            ascending(strs(names@)),
            (Labels { domains: strs(domains@), brands: strs(brands@), hosts: strs(hosts@) }) == record_labels(
                rs.take(i as int),
            ),
            strs(names@) == names_of(rs.take(i as int)),
        decreases sel@.len() - i,
    {
        assert(rs.take(i + 1).drop_last() =~= rs.take(i as int));
        let r = &records[sel[i]];
        add_labels(&mut domains, &mut brands, &mut hosts, r);
        set_add(&mut names, r.name.clone());
        i = i + 1;
    }
    assert(rs.take(i as int) =~= rs);
    if domains.len() == 1 {
        domains[0].clone()
    } else if domains.len() > 1 {
        join_limited_exec(&domains, 5)
    } else if brands.len() == 1 {
        brands[0].clone()
    } else if hosts.len() > 0 {
        join_limited_exec(&hosts, 5)
    } else {
        join_limited_exec(&names, 5)
    }
}

} // verus!
