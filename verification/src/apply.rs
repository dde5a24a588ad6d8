//! Applying the recommended merges to an export: the items of each merge
//! group are merged into the group's first item, and the others removed.
use vstd::prelude::*;

use crate::analyze::{analysis, analyze_merge_candidates, candidate_models, AnalyzeOptions, CandidateModel, MergeCandidate};
use crate::group::{
    arrange, lemma_sorted_order, sorted_order, stable_sort, Keyed,
};
use crate::json::{
    find_member, get_member, lemma_key_index, lemma_model_array, lemma_model_object, member_models,
    models, Json, JsonValue,
};
use crate::merge::{map_insert, merge_item, merge_item_exec, sat_add, ItemCounts, ItemMergeReport};
use crate::records::{collect_login_records, collected, export_items, record_models, LoginRecord, RecordModel};
use crate::relate::record_models_of;
use crate::report::{item_models, ReportItemModel};
use crate::strset::strs;
use crate::text::{chars_of, split_chars, split_on, str_is, string_of, trim, trimmed};

verus! {

// ---------------------------------------------------------------------------
// Options and report
/// Groups of URIs whose login items are to be merged, each group only when
/// at least two items match it and all of them share one username and
/// password.
#[derive(Debug, Clone)]
pub struct MergeApplyOptions {
    pub manual_uri_groups: Vec<Vec<String>>,
}

impl Default for MergeApplyOptions {
    fn default() -> (r: Self)
        ensures
            r.manual_uri_groups@.len() == 0,
    {
        MergeApplyOptions { manual_uri_groups: Vec::new() }
    }
}

/// What applying the merges did.
#[derive(Debug, Clone)]
pub struct MergeApplyReport {
    pub merged_groups: usize,
    pub removed_items: usize,
    pub appended_login_uris: usize,
    pub appended_fields: usize,
    pub appended_password_history_entries: usize,
    pub appended_fido2_credentials: usize,
    pub appended_collection_ids: usize,
    pub preserved_scalar_values_as_fields: usize,
    pub manual_groups_matched: usize,
    pub manual_groups_unmatched: usize,
    pub skipped_conflict_groups: usize,
}

pub struct ApplyCounts {
    pub merged_groups: nat,
    pub removed_items: nat,
    pub item: ItemCounts,
    pub manual_groups_matched: nat,
    pub manual_groups_unmatched: nat,
    pub skipped_conflict_groups: nat,
}

impl MergeApplyReport {
    pub open spec fn model(&self) -> ApplyCounts {
        ApplyCounts {
            merged_groups: self.merged_groups as nat,
            removed_items: self.removed_items as nat,
            item: ItemCounts {
                login_uris: self.appended_login_uris as nat,
                fields: self.appended_fields as nat,
                history: self.appended_password_history_entries as nat,
                fido2: self.appended_fido2_credentials as nat,
                collection_ids: self.appended_collection_ids as nat,
                preserved: self.preserved_scalar_values_as_fields as nat,
            },
            manual_groups_matched: self.manual_groups_matched as nat,
            manual_groups_unmatched: self.manual_groups_unmatched as nat,
            skipped_conflict_groups: self.skipped_conflict_groups as nat,
        }
    }

    /// `absorb`: adds the counts of one item merge.
    pub fn absorb(&mut self, other: ItemMergeReport)
        ensures
            final(self).model() == (ApplyCounts { item: absorb_counts(old(self).model().item, other.model()), ..old(self).model() }),
    {
        self.appended_login_uris = self.appended_login_uris.saturating_add(other.appended_login_uris);
        self.appended_fields = self.appended_fields.saturating_add(other.appended_fields);
        self.appended_password_history_entries =
            self.appended_password_history_entries.saturating_add(other.appended_password_history_entries);
        self.appended_fido2_credentials = self.appended_fido2_credentials.saturating_add(other.appended_fido2_credentials);
        self.appended_collection_ids = self.appended_collection_ids.saturating_add(other.appended_collection_ids);
        self.preserved_scalar_values_as_fields =
            self.preserved_scalar_values_as_fields.saturating_add(other.preserved_scalar_values_as_fields);
    }
}

/// The counts of an item merge added to a total.
pub open spec fn absorb_counts(a: ItemCounts, b: ItemCounts) -> ItemCounts {
    ItemCounts {
        login_uris: sat_add(a.login_uris, b.login_uris),
        fields: sat_add(a.fields, b.fields),
        history: sat_add(a.history, b.history),
        fido2: sat_add(a.fido2, b.fido2),
        collection_ids: sat_add(a.collection_ids, b.collection_ids),
        preserved: sat_add(a.preserved, b.preserved),
    }
}

pub open spec fn zero_counts() -> ApplyCounts {
    ApplyCounts {
        merged_groups: 0,
        removed_items: 0,
        item: ItemCounts { login_uris: 0, fields: 0, history: 0, fido2: 0, collection_ids: 0, preserved: 0 },
        manual_groups_matched: 0,
        manual_groups_unmatched: 0,
        skipped_conflict_groups: 0,
    }
}

// ---------------------------------------------------------------------------
// Union-find over item indexes
/// `UnionFind::union`: the items in the set of `b` join the set of `a`, whose
/// representative stays; indexes outside the items change nothing.
pub open spec fn join(roots: Seq<usize>, a: int, b: int) -> Seq<usize> {
    if 0 <= a < roots.len() && 0 <= b < roots.len() {
        Seq::new(roots.len(), |p: int| if roots[p] == roots[b] { roots[a] } else { roots[p] })
    } else {
        roots
    }
}

/// `union_all`: each of the first `k` indexes joins the set of the first one.
pub open spec fn join_all(roots: Seq<usize>, xs: Seq<usize>, k: int) -> Seq<usize>
    decreases k,
{
    if k <= 1 {
        roots
    } else {
        join(join_all(roots, xs, k - 1), xs[0] as int, xs[k - 1] as int)
    }
}

pub open spec fn item_indexes(items: Seq<ReportItemModel>) -> Seq<usize> {
    Seq::new(items.len(), |i: int| items[i].item_index as usize)
}

/// The items of each of the first `k` candidates joined.
pub open spec fn candidate_unions(roots: Seq<usize>, cands: Seq<CandidateModel>, k: int) -> Seq<usize>
    decreases k,
{
    if k <= 0 {
        roots
    } else {
        let r = candidate_unions(roots, cands, k - 1);
        let xs = item_indexes(cands[k - 1].items);
        join_all(r, xs, xs.len() as int)
    }
}

/// Whether one of the URIs is among the requested ones.
pub open spec fn any_requested(uris: Seq<Seq<char>>, requested: Seq<Seq<char>>) -> bool
    decreases uris.len(),
{
    if uris.len() == 0 {
        false
    } else {
        any_requested(uris.drop_last(), requested) || requested.contains(uris.last())
    }
}

/// The first `n` records that have a requested URI.
pub open spec fn requested_records(recs: Seq<RecordModel>, requested: Seq<Seq<char>>, n: int) -> Seq<RecordModel>
    decreases n,
{
    if n <= 0 {
        Seq::empty()
    } else {
        let init = requested_records(recs, requested, n - 1);
        if any_requested(recs[n - 1].uris, requested) {
            init.push(recs[n - 1])
        } else {
            init
        }
    }
}

/// Whether all the records hold the username and password of the first.
pub open spec fn one_credential(rs: Seq<RecordModel>) -> bool {
    forall|i: int| 0 <= i < rs.len() ==> #[trigger] same_credential(rs[i], rs[0])
}

pub open spec fn same_credential(a: RecordModel, b: RecordModel) -> bool {
    a.username == b.username && a.password == b.password
}

pub open spec fn record_items(rs: Seq<RecordModel>) -> Seq<usize> {
    Seq::new(rs.len(), |i: int| rs[i].item_index as usize)
}

/// One manual group: the records with a requested URI are joined when there
/// are at least two and all of them hold one credential; otherwise nothing is
/// joined. Also whether they were.
pub open spec fn manual_step(roots: Seq<usize>, recs: Seq<RecordModel>, requested: Seq<Seq<char>>) -> (Seq<usize>, bool) {
    let rs = requested_records(recs, requested, recs.len() as int);
    if rs.len() >= 2 && one_credential(rs) {
        (join_all(roots, record_items(rs), rs.len() as int), true)
    } else {
        (roots, false)
    }
}

/// The first `k` manual groups applied; also how many matched and how many
/// did not.
pub open spec fn manual_all(roots: Seq<usize>, recs: Seq<RecordModel>, groups: Seq<Seq<Seq<char>>>, k: int) -> (
    Seq<usize>,
    nat,
    nat,
)
    decreases k,
{
    if k <= 0 {
        (roots, 0, 0)
    } else {
        let (r, m, u) = manual_all(roots, recs, groups, k - 1);
        let (r2, matched) = manual_step(r, recs, groups[k - 1]);
        if matched {
            (r2, m + 1, u)
        } else {
            (r2, m, u + 1)
        }
    }
}

/// Items among the first `k` whose representative is `v`, in order.
pub open spec fn class_of(roots: Seq<usize>, v: int, k: int) -> Seq<usize>
    decreases k,
{
    if k <= 0 {
        Seq::empty()
    } else {
        let init = class_of(roots, v, k - 1);
        if roots[k - 1] == v {
            init.push((k - 1) as usize)
        } else {
            init
        }
    }
}

/// `UnionFind::groups`: the sets of items whose representatives are below
/// `v`, in order of representative.
pub open spec fn classes(roots: Seq<usize>, v: int) -> Seq<Seq<usize>>
    decreases v,
{
    if v <= 0 {
        Seq::empty()
    } else {
        let init = classes(roots, v - 1);
        let c = class_of(roots, v - 1, roots.len() as int);
        if c.len() > 0 {
            init.push(c)
        } else {
            init
        }
    }
}

/// The first `k` sets that have more than one item.
pub open spec fn shared_classes(cs: Seq<Seq<usize>>, k: int) -> Seq<Seq<usize>>
    decreases k,
{
    if k <= 0 {
        Seq::empty()
    } else {
        let init = shared_classes(cs, k - 1);
        if cs[k - 1].len() > 1 {
            init.push(cs[k - 1])
        } else {
            init
        }
    }
}

/// A group is ordered by its first, and least, item.
pub open spec fn min_key(g: Seq<usize>) -> (Seq<char>, Seq<char>, nat) {
    (Seq::empty(), Seq::empty(), if g.len() > 0 { g[0] as nat } else { 0 })
}

/// The merge groups: the sets of more than one item, sorted by least item.
pub open spec fn merge_groups(roots: Seq<usize>) -> Seq<Seq<usize>> {
    let all = classes(roots, roots.len() as int);
    let cs = shared_classes(all, all.len() as int);
    arrange(cs, sorted_order(Seq::new(cs.len(), |i: int| min_key(cs[i])), cs.len() as int))
}

// ---------------------------------------------------------------------------
// Merging the groups
/// The credentials of the item at `i`: those of the last record of it.
pub open spec fn credential_of(recs: Seq<RecordModel>, i: nat) -> Option<(Seq<char>, Seq<char>, Seq<char>, Seq<char>)>
    decreases recs.len(),
{
    if recs.len() == 0 {
        None
    } else if recs.last().item_index == i {
        let r = recs.last();
        Some((r.username, r.password, r.account_hash, r.credential_hash))
    } else {
        credential_of(recs.drop_last(), i)
    }
}

/// Items, which of them are to be removed, and the counts so far.
pub struct ApplyState {
    pub items: Seq<Json>,
    pub removed: Seq<bool>,
    pub counts: ApplyCounts,
}

/// The item at `source` merged into the item at `primary`, and marked for
/// removal.
pub open spec fn merge_source(st: ApplyState, primary: int, source: int) -> ApplyState {
    if 0 <= source < st.items.len() && 0 <= primary < st.items.len() {
        let (t, c) = merge_item(st.items[primary], st.items[source], source as nat);
        ApplyState {
            items: st.items.update(primary, t),
            removed: st.removed.update(source, true),
            counts: ApplyCounts { item: absorb_counts(st.counts.item, c), ..st.counts },
        }
    } else {
        st
    }
}

/// The items after the first of a group, up to the `j`-th, merged into it.
pub open spec fn merge_sources(st: ApplyState, g: Seq<usize>, j: int) -> ApplyState
    decreases j,
{
    if j <= 1 {
        st
    } else {
        merge_source(merge_sources(st, g, j - 1), g[0] as int, g[j - 1] as int)
    }
}

/// One merge group: skipped when its first item has no credentials, counted
/// as a conflict when its items' credentials differ, else merged.
pub open spec fn group_step(st: ApplyState, recs: Seq<RecordModel>, g: Seq<usize>) -> ApplyState {
    match credential_of(recs, g[0] as nat) {
        None => st,
        Some(c) => if exists|j: int| 0 <= j < g.len() && credential_of(recs, #[trigger] g[j] as nat) != Some(c) {
            ApplyState {
                counts: ApplyCounts { skipped_conflict_groups: st.counts.skipped_conflict_groups + 1, ..st.counts },
                ..st
            }
        } else {
            let st2 = merge_sources(st, g, g.len() as int);
            ApplyState { counts: ApplyCounts { merged_groups: st2.counts.merged_groups + 1, ..st2.counts }, ..st2 }
        },
    }
}

pub open spec fn groups_step(st: ApplyState, recs: Seq<RecordModel>, gs: Seq<Seq<usize>>, k: int) -> ApplyState
    decreases k,
{
    if k <= 0 {
        st
    } else {
        group_step(groups_step(st, recs, gs, k - 1), recs, gs[k - 1])
    }
}

/// The items not marked for removal.
pub open spec fn kept(items: Seq<Json>, removed: Seq<bool>) -> Seq<Json>
    decreases items.len(),
{
    if items.len() == 0 {
        Seq::empty()
    } else {
        let init = kept(items.drop_last(), removed);
        if removed[items.len() - 1] {
            init
        } else {
            init.push(items.last())
        }
    }
}

/// Number of items marked for removal.
pub open spec fn count_removed(removed: Seq<bool>) -> nat
    decreases removed.len(),
{
    if removed.len() == 0 {
        0
    } else {
        count_removed(removed.drop_last()) + if removed.last() {
            1nat
        } else {
            0nat
        }
    }
}

/// The export with its items replaced.
pub open spec fn with_items(value: Json, xs: Seq<Json>) -> Json {
    match value {
        Json::Object(ms) => Json::Object(map_insert(ms, "items"@, Json::Array(xs))),
        _ => value,
    }
}

/// `apply_recommended_merges`: the export after merging the items of each
/// merge group into its first item and removing the others, and the counts.
/// Merge groups are the sets of items joined by the high-confidence
/// candidates and by the manual URI groups.
pub open spec fn apply_merges(value: Json, manual: Seq<Seq<Seq<char>>>) -> (Json, ApplyCounts) {
    let cands = analysis(value, false).candidates;
    let recs = collected(value).2;
    match export_items(value) {
        Some(xs) => if xs.len() == 0 {
            (value, zero_counts())
        } else {
            let n = xs.len();
            let r0 = Seq::new(n, |i: int| i as usize);
            let r1 = candidate_unions(r0, cands, cands.len() as int);
            let (r2, matched, unmatched) = manual_all(r1, recs, manual, manual.len() as int);
            let gs = merge_groups(r2);
            let st0 = ApplyState {
                items: xs,
                removed: Seq::new(n, |i: int| false),
                counts: ApplyCounts {
                    manual_groups_matched: matched,
                    manual_groups_unmatched: unmatched,
                    ..zero_counts()
                },
            };
            let st = groups_step(st0, recs, gs, gs.len() as int);
            (
                with_items(value, kept(st.items, st.removed)),
                ApplyCounts { removed_items: count_removed(st.removed), ..st.counts },
            )
        },
        None => (value, zero_counts()),
    }
}

// ---------------------------------------------------------------------------
// Executable
/// Sets of item indexes, each with a representative item.
pub struct UnionFind {
    pub roots: Vec<usize>,
}

impl UnionFind {
    /// Every item in a set of its own.
    pub fn new(len: usize) -> (r: Self)
        ensures
            r.roots@ == Seq::new(len as nat, |i: int| i as usize),
    {
        let mut roots: Vec<usize> = Vec::new();
        let mut i: usize = 0;
        while i < len
            invariant
                i <= len,
                roots@ == Seq::new(i as nat, |k: int| k as usize),
            decreases len - i,
        {
            roots.push(i);
            i = i + 1;
            assert(roots@ =~= Seq::new(i as nat, |k: int| k as usize));
        }
        UnionFind { roots }
    }

    /// The representative of the set of `index`.
    pub fn find(&self, index: usize) -> (r: usize)
        requires
            index < self.roots@.len(),
        ensures
            r == self.roots@[index as int],
    {
        self.roots[index]
    }

    /// Joins the set of `right` to that of `left`.
    pub fn union(&mut self, left: usize, right: usize)
        ensures
            final(self).roots@ == join(old(self).roots@, left as int, right as int),
    {
        let n = self.roots.len();
        if left >= n || right >= n {
            return;
        }
        let ghost r0 = self.roots@;
        let a = self.find(left);
        let b = self.find(right);
        let mut p: usize = 0;
        while p < n
            invariant
                n == self.roots@.len() == r0.len(),
                p <= n,
                a == r0[left as int],
                b == r0[right as int],
                forall|q: int| 0 <= q < p ==> #[trigger] self.roots@[q] == (if r0[q] == b { a } else { r0[q] }),
                forall|q: int| p <= q < n ==> #[trigger] self.roots@[q] == r0[q],
            decreases n - p,
        {
            if self.roots[p] == b {
                self.roots.set(p, a);
            }
            p = p + 1;
        }
        assert(self.roots@ =~= join(r0, left as int, right as int));
    }

    /// The sets, each listing its items in order, in order of representative.
    pub fn groups(&self) -> (r: Vec<Vec<usize>>)
        ensures
            vec_views(r@) == classes(self.roots@, self.roots@.len() as int),
    {
        let n = self.roots.len();
        let ghost rs = self.roots@;
        let mut out: Vec<Vec<usize>> = Vec::new();
        let mut v: usize = 0;
        assert(vec_views(out@) =~= classes(rs, 0));
        while v < n
            invariant
                n == rs.len(),
                rs == self.roots@,
                v <= n,
                vec_views(out@) == classes(rs, v as int),
            decreases n - v,
        {
            let mut members: Vec<usize> = Vec::new();
            let mut p: usize = 0;
            while p < n
                invariant
                    n == rs.len(),
                    rs == self.roots@,
                    p <= n,
                    members@ == class_of(rs, v as int, p as int),
                decreases n - p,
            {
                if self.roots[p] == v {
                    members.push(p);
                }
                p = p + 1;
            }
            if members.len() > 0 {
                let ghost before = vec_views(out@);
                let ghost mv = members@;
                out.push(members);
                assert(vec_views(out@) =~= before.push(mv));
            }
            v = v + 1;
        }
        out
    }
}

pub open spec fn vec_views(v: Seq<Vec<usize>>) -> Seq<Seq<usize>> {
    Seq::new(v.len(), |i: int| v[i]@)
}

/// `union_all`: each of the indexes joins the set of the first.
pub fn union_all(uf: &mut UnionFind, values: &Vec<usize>)
    ensures
        final(uf).roots@ == join_all(old(uf).roots@, values@, values@.len() as int),
{
    if values.len() == 0 {
        return;
    }
    let ghost r0 = uf.roots@;
    let first = values[0];
    let mut k: usize = 1;
    while k < values.len()
        invariant
            1 <= k <= values@.len(),
            first == values@[0],
            uf.roots@ == join_all(r0, values@, k as int),
        decreases values@.len() - k,
    {
        uf.union(first, values[k]);
        k = k + 1;
    }
}

fn candidate_unions_exec(uf: &mut UnionFind, cands: &Vec<MergeCandidate>)
    ensures
        final(uf).roots@ == candidate_unions(old(uf).roots@, candidate_models(cands@), cands@.len() as int),
{
    let ghost r0 = uf.roots@;
    let ghost cs = candidate_models(cands@);
    let mut k: usize = 0;
    while k < cands.len()
        invariant
            k <= cands@.len(),
            cs == candidate_models(cands@),
            uf.roots@ == candidate_unions(r0, cs, k as int),
        decreases cands@.len() - k,
    {
        let items = &cands[k].items;
        let mut xs: Vec<usize> = Vec::new();
        let mut j: usize = 0;
        while j < items.len()
            invariant
                j <= items@.len(),
                xs@ == item_indexes(item_models(items@)).take(j as int),
            decreases items@.len() - j,
        {
            xs.push(items[j].item_index);
            j = j + 1;
            assert(xs@ =~= item_indexes(item_models(items@)).take(j as int));
        }
        assert(xs@ =~= item_indexes(item_models(items@)));
        assert(cs[k as int].items == item_models(items@));
        union_all(uf, &xs);
        k = k + 1;
    }
}

fn list_contains(v: &Vec<String>, x: &String) -> (r: bool)
    ensures
        r == strs(v@).contains(x@),
{
    let mut i: usize = 0;
    while i < v.len()
        invariant
            i <= v@.len(),
            forall|k: int| 0 <= k < i ==> #[trigger] strs(v@)[k] != x@,
        decreases v@.len() - i,
    {
        if str_is(v[i].as_str(), x.as_str()) {
            assert(strs(v@)[i as int] == x@);
            return true;
        }
        i = i + 1;
    }
    false
}

fn uri_requested(uris: &Vec<String>, requested: &Vec<String>) -> (r: bool)
    ensures
        r == any_requested(strs(uris@), strs(requested@)),
{
    let ghost us = strs(uris@);
    let mut i: usize = 0;
    assert(us.take(0) =~= Seq::<Seq<char>>::empty());
    while i < uris.len()
        invariant
            i <= uris@.len(),
            us == strs(uris@),
            !any_requested(us.take(i as int), strs(requested@)),
        decreases uris@.len() - i,
    {
        assert(us.take(i + 1).drop_last() =~= us.take(i as int));
        if list_contains(requested, &uris[i]) {
            proof {
                lemma_any_requested_prefix(us, strs(requested@), i + 1);
            }
            return true;
        }
        i = i + 1;
    }
    assert(us.take(i as int) =~= us);
    false
}

proof fn lemma_any_requested_prefix(us: Seq<Seq<char>>, req: Seq<Seq<char>>, n: int)
    requires
        0 <= n <= us.len(),
        any_requested(us.take(n), req),
    ensures
        any_requested(us, req),
    decreases us.len() - n,
{
    if n < us.len() {
        assert(us.take(n + 1).drop_last() =~= us.take(n));
        lemma_any_requested_prefix(us, req, n + 1);
    } else {
        assert(us.take(n) =~= us);
    }
}

pub open spec fn selected_records(recs: Seq<RecordModel>, sel: Seq<usize>) -> Seq<RecordModel> {
    Seq::new(sel.len(), |i: int| recs[sel[i] as int])
}

/// One manual URI group: joins the items of the records with a requested
/// URI when there are at least two and all hold one credential; returns
/// whether they were joined.
fn manual_step_exec(uf: &mut UnionFind, records: &Vec<LoginRecord>, requested: &Vec<String>) -> (matched: bool)
    ensures
        (final(uf).roots@, matched) == manual_step(old(uf).roots@, record_models_of(records@), strs(requested@)),
{
    let ghost recs = record_models_of(records@);
    let ghost req = strs(requested@);
    let n = records.len();
    let mut sel: Vec<usize> = Vec::new();
    let mut i: usize = 0;
    assert(selected_records(recs, sel@) =~= requested_records(recs, req, 0));
    while i < n
        invariant
            n == records@.len(),
            recs == record_models_of(records@),
            req == strs(requested@),
            i <= n,
            selected_records(recs, sel@) == requested_records(recs, req, i as int),
            forall|k: int| 0 <= k < sel@.len() ==> #[trigger] sel@[k] < n,
        decreases n - i,
    {
        if uri_requested(&records[i].uris, requested) {
            let ghost before = selected_records(recs, sel@);
            sel.push(i);
            assert(selected_records(recs, sel@) =~= before.push(recs[i as int]));
        }
        i = i + 1;
    }
    let ghost rs = requested_records(recs, req, n as int);
    if sel.len() < 2 {
        return false;
    }
    let first = &records[sel[0]];
    assert(rs[0] == recs[sel@[0] as int]);
    let mut j: usize = 1;
    while j < sel.len()
        invariant
            n == records@.len(),
            recs == record_models_of(records@),
            rs == selected_records(recs, sel@),
            forall|k: int| 0 <= k < sel@.len() ==> #[trigger] sel@[k] < n,
            2 <= sel@.len(),
            first.model() == rs[0],
            uf.roots@ == old(uf).roots@,
            rs == requested_records(recs, strs(requested@), recs.len() as int),
            1 <= j <= sel@.len(),
            forall|k: int| 0 <= k < j ==> #[trigger] same_credential(rs[k], rs[0]),
        decreases sel@.len() - j,
    {
        let r = &records[sel[j]];
        assert(rs[j as int] == recs[sel@[j as int] as int]);
        assert(r.model() == rs[j as int]);
        if !(str_is(r.username_token.as_str(), first.username_token.as_str()) && str_is(
            r.password_token.as_str(),
            first.password_token.as_str(),
        )) {
            assert(!same_credential(rs[j as int], rs[0]));
            assert(!one_credential(rs));
            return false;
        }
        j = j + 1;
    }
    assert(one_credential(rs));
    let mut xs: Vec<usize> = Vec::new();
    let mut m: usize = 0;
    while m < sel.len()
        invariant
            n == records@.len(),
            recs == record_models_of(records@),
            rs == selected_records(recs, sel@),
            forall|k: int| 0 <= k < sel@.len() ==> #[trigger] sel@[k] < n,
            m <= sel@.len(),
            xs@ == record_items(rs).take(m as int),
        decreases sel@.len() - m,
    {
        xs.push(records[sel[m]].item_index);
        m = m + 1;
        assert(xs@ =~= record_items(rs).take(m as int));
    }
    assert(xs@ =~= record_items(rs));
    union_all(uf, &xs);
    true
}

pub open spec fn group_views_of(groups: Seq<Vec<String>>) -> Seq<Seq<Seq<char>>> {
    Seq::new(groups.len(), |i: int| strs(groups[i]@))
}

fn manual_all_exec(uf: &mut UnionFind, records: &Vec<LoginRecord>, groups: &Vec<Vec<String>>) -> (r: (usize, usize))
    ensures
        (final(uf).roots@, r.0 as nat, r.1 as nat) == manual_all(
            old(uf).roots@,
            record_models_of(records@),
            group_views_of(groups@),
            groups@.len() as int,
        ),
{
    let ghost r0 = uf.roots@;
    let ghost gv = group_views_of(groups@);
    let mut matched: usize = 0;
    let mut unmatched: usize = 0;
    let mut k: usize = 0;
    while k < groups.len()
        invariant
            k <= groups@.len(),
            gv == group_views_of(groups@),
            matched + unmatched == k,
            (uf.roots@, matched as nat, unmatched as nat) == manual_all(
                r0,
                record_models_of(records@),
                gv,
                k as int,
            ),
        decreases groups@.len() - k,
    {
        assert(gv[k as int] == strs(groups@[k as int]@));
        if manual_step_exec(uf, records, &groups[k]) {
            matched = matched + 1;
        } else {
            unmatched = unmatched + 1;
        }
        k = k + 1;
    }
    (matched, unmatched)
}

impl Keyed for Vec<usize> {
    open spec fn sort_key(&self) -> (Seq<char>, Seq<char>, nat) {
        min_key(self@)
    }

    fn key_less(&self, other: &Self) -> (r: bool) {
        let a: usize = if self.len() > 0 {
            self[0]
        } else {
            0
        };
        let b: usize = if other.len() > 0 {
            other[0]
        } else {
            0
        };
        a < b
    }
}

/// The merge groups of the sets: those of more than one item, sorted by
/// least item.
fn merge_groups_exec(uf: &UnionFind) -> (r: Vec<Vec<usize>>)
    ensures
        vec_views(r@) == merge_groups(uf.roots@),
        forall|i: int| 0 <= i < r@.len() ==> #[trigger] r@[i]@.len() > 1,
{
    let all = uf.groups();
    let ghost av = vec_views(all@);
    let mut shared: Vec<Vec<usize>> = Vec::new();
    let mut k: usize = 0;
    while k < all.len()
        invariant
            k <= all@.len(),
            av == vec_views(all@),
            vec_views(shared@) == shared_classes(av, k as int),
        decreases all@.len() - k,
    {
        if all[k].len() > 1 {
            let ghost before = vec_views(shared@);
            shared.push(all[k].clone());
            assert(vec_views(shared@) =~= before.push(av[k as int]));
        }
        k = k + 1;
    }
    let ghost sv = vec_views(shared@);
    let ghost o = sorted_order(crate::group::keys_of(shared@), shared@.len() as int);
    let n0 = shared.len();
    proof {
        lemma_sorted_order(crate::group::keys_of(shared@), n0 as int);
        assert(crate::group::keys_of(shared@) =~= Seq::new(sv.len(), |i: int| min_key(sv[i])));
    }
    stable_sort(&mut shared);
    assert(vec_views(shared@) =~= arrange(sv, o));
    proof {
        lemma_merge_groups(uf.roots@);
        assert(vec_views(shared@) == merge_groups(uf.roots@));
        assert forall|i: int| 0 <= i < shared@.len() implies #[trigger] shared@[i]@.len() > 1 by {
            assert(vec_views(shared@)[i] == shared@[i]@);
        }
    }
    shared
}

pub open spec fn cred_tuple(r: RecordModel) -> (Seq<char>, Seq<char>, Seq<char>, Seq<char>) {
    (r.username, r.password, r.account_hash, r.credential_hash)
}

/// Position of the record that gives the item at `i` its credentials.
fn credential_position(records: &Vec<LoginRecord>, i: usize) -> (r: Option<usize>)
    ensures
        match r {
            Some(p) => p < records@.len() && credential_of(record_models_of(records@), i as nat) == Some(
                cred_tuple(record_models_of(records@)[p as int]),
            ),
            None => credential_of(record_models_of(records@), i as nat) is None,
        },
{
    let ghost recs = record_models_of(records@);
    let mut k = records.len();
    assert(recs.take(k as int) =~= recs);
    while k > 0
        invariant
            k <= recs.len(),
            recs == record_models_of(records@),
            credential_of(recs, i as nat) == credential_of(recs.take(k as int), i as nat),
        decreases k,
    {
        assert(recs.take(k as int).drop_last() =~= recs.take(k - 1));
        if records[k - 1].item_index == i {
            return Some(k - 1);
        }
        k = k - 1;
    }
    None
}

fn same_credentials(a: &LoginRecord, b: &LoginRecord) -> (r: bool)
    ensures
        r == (cred_tuple(a.model()) == cred_tuple(b.model())),
{
    str_is(a.username_token.as_str(), b.username_token.as_str()) && str_is(
        a.password_token.as_str(),
        b.password_token.as_str(),
    ) && str_is(a.account_hash.as_str(), b.account_hash.as_str()) && str_is(
        a.credential_hash.as_str(),
        b.credential_hash.as_str(),
    )
}

pub open spec fn apply_state(items: Seq<JsonValue>, removed: Seq<bool>, report: MergeApplyReport) -> ApplyState {
    ApplyState { items: models(items), removed, counts: report.model() }
}

proof fn lemma_merge_sources_frame(st: ApplyState, g: Seq<usize>, j: int)
    requires
        st.items.len() == st.removed.len(),
    ensures
        merge_sources(st, g, j).items.len() == st.items.len(),
        merge_sources(st, g, j).removed.len() == st.removed.len(),
        merge_sources(st, g, j).counts.merged_groups == st.counts.merged_groups,
        merge_sources(st, g, j).counts.skipped_conflict_groups == st.counts.skipped_conflict_groups,
        merge_sources(st, g, j).counts.removed_items == st.counts.removed_items,
        merge_sources(st, g, j).counts.manual_groups_matched == st.counts.manual_groups_matched,
        merge_sources(st, g, j).counts.manual_groups_unmatched == st.counts.manual_groups_unmatched,
    decreases j,
{
    if j > 1 {
        lemma_merge_sources_frame(st, g, j - 1);
    }
}

fn merge_source_exec(
    items: &mut Vec<JsonValue>,
    removed: &mut Vec<bool>,
    report: &mut MergeApplyReport,
    primary: usize,
    source: usize,
)
    requires
        old(items)@.len() == old(removed)@.len(),
    ensures
        final(items)@.len() == final(removed)@.len(),
        apply_state(final(items)@, final(removed)@, *final(report)) == merge_source(
            apply_state(old(items)@, old(removed)@, *old(report)),
            primary as int,
            source as int,
        ),
{
    let ghost st = apply_state(items@, removed@, *report);
    if source < items.len() && primary < items.len() {
        let src = crate::json::clone_json(&items[source]);
        let mut target = items.remove(primary);
        let counts = merge_item_exec(&mut target, &src, source);
        let ghost tm = target.model();
        items.insert(primary, target);
        removed.set(source, true);
        report.absorb(counts);
        proof {
            assert(models(items@) =~= st.items.update(primary as int, tm));
        }
    }
}

fn merge_sources_exec(
    items: &mut Vec<JsonValue>,
    removed: &mut Vec<bool>,
    report: &mut MergeApplyReport,
    g: &Vec<usize>,
)
    requires
        old(items)@.len() == old(removed)@.len(),
        g@.len() > 0,
    ensures
        final(items)@.len() == final(removed)@.len(),
        apply_state(final(items)@, final(removed)@, *final(report)) == merge_sources(
            apply_state(old(items)@, old(removed)@, *old(report)),
            g@,
            g@.len() as int,
        ),
{
    let ghost st0 = apply_state(items@, removed@, *report);
    let primary = g[0];
    let mut j: usize = 1;
    while j < g.len()
        invariant
            1 <= j <= g@.len(),
            primary == g@[0],
            items@.len() == removed@.len(),
            apply_state(items@, removed@, *report) == merge_sources(st0, g@, j as int),
        decreases g@.len() - j,
    {
        merge_source_exec(items, removed, report, primary, g[j]);
        j = j + 1;
    }
}

fn group_step_exec(
    items: &mut Vec<JsonValue>,
    removed: &mut Vec<bool>,
    report: &mut MergeApplyReport,
    records: &Vec<LoginRecord>,
    g: &Vec<usize>,
)
    requires
        old(items)@.len() == old(removed)@.len(),
        g@.len() > 0,
        old(report).merged_groups + old(report).skipped_conflict_groups < usize::MAX,
    ensures
        final(items)@.len() == final(removed)@.len(),
        final(report).merged_groups + final(report).skipped_conflict_groups <= old(report).merged_groups
            + old(report).skipped_conflict_groups + 1,
        apply_state(final(items)@, final(removed)@, *final(report)) == group_step(
            apply_state(old(items)@, old(removed)@, *old(report)),
            record_models_of(records@),
            g@,
        ),
{
    let ghost recs = record_models_of(records@);
    let ghost st0 = apply_state(items@, removed@, *report);
    match credential_position(records, g[0]) {
        None => {},
        Some(p0) => {
            let ghost c = cred_tuple(recs[p0 as int]);
            let mut conflict = false;
            let mut j: usize = 0;
            while j < g.len()
                invariant
                    j <= g@.len(),
                    p0 < records@.len(),
                    recs == record_models_of(records@),
                    c == cred_tuple(recs[p0 as int]),
                    conflict == exists|t: int| 0 <= t < j && credential_of(recs, #[trigger] g@[t] as nat) != Some(c),
                decreases g@.len() - j,
            {
                match credential_position(records, g[j]) {
                    Some(q) => {
                        if !same_credentials(&records[p0], &records[q]) {
                            conflict = true;
                        }
                    },
                    None => {
                        conflict = true;
                    },
                }
                j = j + 1;
            }
            if conflict {
                report.skipped_conflict_groups = report.skipped_conflict_groups + 1;
            } else {
                merge_sources_exec(items, removed, report, g);
                proof {
                    lemma_merge_sources_frame(st0, g@, g@.len() as int);
                }
                report.merged_groups = report.merged_groups + 1;
            }
        },
    }
}

/// The items not marked for removal, and how many were.
fn keep_items(items: Vec<JsonValue>, removed: &Vec<bool>) -> (r: (Vec<JsonValue>, usize))
    requires
        items@.len() == removed@.len(),
    ensures
        models(r.0@) == kept(models(items@), removed@),
        r.1 == count_removed(removed@),
{
    let ghost orig = models(items@);
    let n = items.len();
    let mut rest = items;
    let mut out: Vec<JsonValue> = Vec::new();
    let mut count: usize = 0;
    let mut i: usize = 0;
    assert(orig.take(0) =~= Seq::<Json>::empty());
    assert(removed@.take(0) =~= Seq::<bool>::empty());
    assert(models(rest@) =~= orig.skip(0));
    while i < n
        invariant
            n == orig.len() == removed@.len(),
            i <= n,
            models(rest@) == orig.skip(i as int),
            models(out@) == kept(orig.take(i as int), removed@),
            count == count_removed(removed@.take(i as int)),
            count <= i,
        decreases n - i,
    {
        assert(orig.take(i + 1).drop_last() =~= orig.take(i as int));
        assert(removed@.take(i + 1).drop_last() =~= removed@.take(i as int));
        let ghost rv = models(rest@);
        let ghost rs0 = rest@;
        assert(rv.len() == rest@.len());
        let x = rest.remove(0);
        assert(x.model() == rv[0]);
        assert forall|k: int| 0 <= k < rest@.len() implies #[trigger] models(rest@)[k] == orig.skip(i + 1)[k] by {
            assert(rest@[k] == rs0[k + 1]);
            assert(rv[k + 1] == orig.skip(i as int)[k + 1]);
        }
        assert(models(rest@) =~= orig.skip(i + 1));
        if removed[i] {
            count = count + 1;
        } else {
            let ghost before = models(out@);
            out.push(x);
            assert(models(out@) =~= before.push(orig[i as int]));
        }
        i = i + 1;
    }
    assert(orig.take(n as int) =~= orig);
    assert(removed@.take(n as int) =~= removed@);
    (out, count)
}

proof fn lemma_shared_classes(cs: Seq<Seq<usize>>, k: int)
    requires
        0 <= k <= cs.len(),
    ensures
        shared_classes(cs, k).len() <= k,
        forall|i: int| 0 <= i < shared_classes(cs, k).len() ==> #[trigger] shared_classes(cs, k)[i].len() > 1,
    decreases k,
{
    if k > 0 {
        lemma_shared_classes(cs, k - 1);
        let init = shared_classes(cs, k - 1);
        let out = shared_classes(cs, k);
        assert forall|i: int| 0 <= i < out.len() implies #[trigger] out[i].len() > 1 by {
            if i < init.len() {
                assert(out[i] == init[i]);
            }
        }
    }
}

/// Every merge group has more than one item.
proof fn lemma_merge_groups(roots: Seq<usize>)
    requires
        classes(roots, roots.len() as int).len() <= usize::MAX,
    ensures
        forall|i: int| 0 <= i < merge_groups(roots).len() ==> #[trigger] merge_groups(roots)[i].len() > 1,
{
    let all = classes(roots, roots.len() as int);
    let cs = shared_classes(all, all.len() as int);
    lemma_shared_classes(all, all.len() as int);
    lemma_sorted_order(Seq::new(cs.len(), |i: int| min_key(cs[i])), cs.len() as int);
}

/// Merges the groups' items, then drops the items merged into others.
fn process_items(
    items: Vec<JsonValue>,
    groups: &Vec<Vec<usize>>,
    records: &Vec<LoginRecord>,
    report: &mut MergeApplyReport,
) -> (kept_items: Vec<JsonValue>)
    requires
        forall|a: int| 0 <= a < groups@.len() ==> #[trigger] groups@[a]@.len() > 1,
        old(report).merged_groups == 0,
        old(report).skipped_conflict_groups == 0,
    ensures
        ({
            let st0 = apply_state(items@, Seq::new(items@.len(), |x: int| false), *old(report));
            let st = groups_step(st0, record_models_of(records@), vec_views(groups@), groups@.len() as int);
            &&& models(kept_items@) == kept(st.items, st.removed)
            &&& final(report).model() == (ApplyCounts { removed_items: count_removed(st.removed), ..st.counts })
        }),
{
    let ghost gs = vec_views(groups@);
    let ghost recs = record_models_of(records@);
    let mut items = items;
    let mut removed: Vec<bool> = Vec::new();
    let mut t: usize = 0;
    while t < items.len()
        invariant
            t <= items@.len(),
            removed@ == Seq::new(t as nat, |x: int| false),
        decreases items@.len() - t,
    {
        removed.push(false);
        t = t + 1;
        assert(removed@ =~= Seq::new(t as nat, |x: int| false));
    }
    let ghost st0 = apply_state(items@, removed@, *report);
    let mut g: usize = 0;
    while g < groups.len()
        invariant
            g <= groups@.len(),
            gs == vec_views(groups@),
            forall|a: int| 0 <= a < groups@.len() ==> #[trigger] groups@[a]@.len() > 1,
            recs == record_models_of(records@),
            items@.len() == removed@.len(),
            report.merged_groups + report.skipped_conflict_groups <= g,
            apply_state(items@, removed@, *report) == groups_step(st0, recs, gs, g as int),
        decreases groups@.len() - g,
    {
        assert(gs[g as int] == groups@[g as int]@);
        group_step_exec(&mut items, &mut removed, report, records, &groups[g]);
        g = g + 1;
    }
    let (kept_items, count) = keep_items(items, &removed);
    report.removed_items = count;
    kept_items
}

/// `apply_recommended_merges`: merges the items of each merge group, those
/// joined by the high-confidence candidates and by the manual URI groups,
/// into the group's first item, removes the others, and reports what was
/// done.
#[verifier::rlimit(50)]
pub fn apply_recommended_merges(value: &mut JsonValue, options: MergeApplyOptions) -> (r: MergeApplyReport)
    ensures
        (final(value).model(), r.model()) == apply_merges(
            old(value).model(),
            group_views_of(options.manual_uri_groups@),
        ),
{
    let ghost v0 = value.model();
    let analysis = analyze_merge_candidates(value, AnalyzeOptions { include_review_groups: false });
    let (_total, _logins, records) = collect_login_records(value);
    let ghost recs = record_models_of(records@);
    assert(recs =~= record_models(records@));
    let item_count = match get_member(value, "items") {
        Some(JsonValue::Array(xs)) => {
            proof {
                lemma_model_array(*xs);
            }
            xs.len()
        },
        _ => 0,
    };
    let mut report = MergeApplyReport {
        merged_groups: 0,
        removed_items: 0,
        appended_login_uris: 0,
        appended_fields: 0,
        appended_password_history_entries: 0,
        appended_fido2_credentials: 0,
        appended_collection_ids: 0,
        preserved_scalar_values_as_fields: 0,
        manual_groups_matched: 0,
        manual_groups_unmatched: 0,
        skipped_conflict_groups: 0,
    };
    if item_count == 0 {
        return report;
    }
    let mut uf = UnionFind::new(item_count);
    candidate_unions_exec(&mut uf, &analysis.high_confidence_merge_candidates);
    let (matched, unmatched) = manual_all_exec(&mut uf, &records, &options.manual_uri_groups);
    report.manual_groups_matched = matched;
    report.manual_groups_unmatched = unmatched;
    let groups = merge_groups_exec(&uf);
    let mut owned_value = JsonValue::Null;
    std::mem::swap(&mut owned_value, value);
    match owned_value {
        JsonValue::Object(mut ms) => {
            proof {
                lemma_model_object(ms);
                lemma_key_index(member_models(ms@), "items"@);
            }
            let ghost m0 = member_models(ms@);
            match find_member(&ms, "items") {
                Some(i) => {
                    let (k, v) = ms.remove(i);
                    match v {
                        JsonValue::Array(mut items) => {
                            proof {
                                lemma_model_array(items);
                            }
                            let kept_items = process_items(items, &groups, &records, &mut report);
                            let ghost kv = kept_items;
                            ms.insert(i, (k, JsonValue::Array(kept_items)));
                            proof {
                                lemma_model_array(kv);
                                assert(member_models(ms@) =~= m0.update(i as int, ("items"@, Json::Array(models(kv@)))));
                                lemma_model_object(ms);
                            }
                        },
                        other => {
                            ms.insert(i, (k, other));
                            assert(member_models(ms@) =~= m0);
                            proof {
                                lemma_model_object(ms);
                            }
                        },
                    }
                },
                None => {},
            }
            *value = JsonValue::Object(ms);
        },
        other => {
            *value = other;
        },
    }
    report
}

// ---------------------------------------------------------------------------
// Manual groups given as text
/// The first `k` pieces trimmed, leaving out those that are then empty.
pub open spec fn trimmed_pieces(ps: Seq<Seq<char>>, k: int) -> Seq<Seq<char>>
    decreases k,
{
    if k <= 0 {
        Seq::empty()
    } else {
        let init = trimmed_pieces(ps, k - 1);
        let t = trim(ps[k - 1]);
        if t.len() > 0 {
            init.push(t)
        } else {
            init
        }
    }
}

/// The URIs of a manual group written as comma-separated text.
pub open spec fn group_uris(text: Seq<char>) -> Seq<Seq<char>> {
    let ps = split_on(text, ',');
    trimmed_pieces(ps, ps.len() as int)
}

/// `parse_manual_groups`: the first `k` texts read as URI groups, keeping the
/// groups of more than one URI.
pub open spec fn manual_groups_of(texts: Seq<Seq<char>>, k: int) -> Seq<Seq<Seq<char>>>
    decreases k,
{
    if k <= 0 {
        Seq::empty()
    } else {
        let init = manual_groups_of(texts, k - 1);
        let g = group_uris(texts[k - 1]);
        if g.len() > 1 {
            init.push(g)
        } else {
            init
        }
    }
}

fn group_uris_exec(text: &String) -> (r: Vec<String>)
    ensures
        strs(r@) == group_uris(text@),
{
    let cs = chars_of(text.as_str());
    let pieces = split_chars(cs.as_slice(), ',');
    let ghost ps = split_on(text@, ',');
    let mut out: Vec<String> = Vec::new();
    let mut i: usize = 0;
    assert(strs(out@) =~= trimmed_pieces(ps, 0));
    while i < pieces.len()
        invariant
            i <= pieces@.len() == ps.len(),
            ps == split_on(text@, ','),
            cs@ == text@,
            forall|k: int| 0 <= k < pieces@.len() ==> #[trigger] pieces@[k]@ == ps[k],
            strs(out@) == trimmed_pieces(ps, i as int),
        decreases pieces@.len() - i,
    {
        let t = trimmed(pieces[i].as_slice());
        assert(t@ == trim(ps[i as int]));
        if t.len() > 0 {
            let ghost before = strs(out@);
            out.push(string_of(t.as_slice()));
            assert(strs(out@) =~= before.push(t@));
        }
        i = i + 1;
    }
    out
}

/// `parse_manual_groups`: each text split at commas into trimmed URIs, empty
/// ones left out; groups of fewer than two URIs are dropped.
pub fn parse_manual_groups(groups: &Vec<String>) -> (r: Vec<Vec<String>>)
    ensures
        group_views_of(r@) == manual_groups_of(strs(groups@), groups@.len() as int),
{
    let ghost ts = strs(groups@);
    let mut out: Vec<Vec<String>> = Vec::new();
    let mut i: usize = 0;
    assert(group_views_of(out@) =~= manual_groups_of(ts, 0));
    while i < groups.len()
        invariant
            i <= groups@.len(),
            ts == strs(groups@),
            group_views_of(out@) == manual_groups_of(ts, i as int),
        decreases groups@.len() - i,
    {
        let g = group_uris_exec(&groups[i]);
        assert(ts[i as int] == groups@[i as int]@);
        if g.len() > 1 {
            let ghost before = group_views_of(out@);
            let ghost gv = strs(g@);
            out.push(g);
            assert(group_views_of(out@) =~= before.push(gv));
        }
        i = i + 1;
    }
    out
}

} // verus!
