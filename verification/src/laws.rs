//! Properties of the analysis and of merging that hold for every export.
use vstd::prelude::*;

use crate::analyze::{
    account_keys, analysis, candidate, candidate_key, component_candidates, credential_keys, group_candidates,
    group_conflicts, group_reviews, lemma_candidate_count, lemma_group_candidates_several, review_key, review_of,
    component_conflicts, conflict_key, conflict_of, password_keys, variant, CandidateModel, ConflictModel,
    ReviewModel, VariantModel,
};
use crate::relate::{
    lemma_comp_total_each, lemma_components_from, lemma_components_partition, related_components, ComponentModel,
};
use crate::report::{name_key, report_item, selected, sort_records, ReportItemModel};
use crate::apply::{
    apply_merges, class_of, classes, count_removed, cred_tuple, credential_of, group_step, groups_step, kept,
    merge_groups, merge_sources, min_key, shared_classes, with_items, ApplyState,
};
use crate::group::{
    group_all, lemma_group_all, lemma_group_all_distinct, lemma_group_all_keys, lemma_sorted_order,
    lemma_sorted_order_len, lemma_total_members_each, sorted_order, total_members, Group,
};
use crate::json::{json_eq, key_index, lemma_key_index, Json};
use crate::merge::{any_eq, append_unique};
use crate::records::{collected, export_items, records_upto, short_hash, RecordModel};
use crate::sanitize::{masked_with, should_preserve};
use crate::text::decimal;

verus! {

/// The summary counts the groups that the analysis lists: as many
/// high-confidence groups, password conflict groups and review groups as
/// its lists hold.
pub proof fn law_summary_counts_listed_groups(value: Json, include_review_groups: bool)
    ensures
        ({
            let a = analysis(value, include_review_groups);
            &&& a.summary.high_confidence_merge_groups == a.candidates.len()
            &&& a.summary.password_conflict_groups == a.conflicts.len()
            &&& a.summary.review_groups == a.reviews.len()
        }),
{
    let recs = collected(value).2;
    let gs = group_all(credential_keys(recs), recs.len() as int);
    let found = group_candidates(recs, gs);
    let conflicts = group_conflicts(recs, group_all(account_keys(recs), recs.len() as int));
    lemma_sorted_order_len(
        Seq::new(found.len(), |i: int| crate::analyze::candidate_key(found[i])),
        found.len() as int,
    );
    lemma_sorted_order_len(
        Seq::new(conflicts.len(), |i: int| crate::analyze::conflict_key(conflicts[i])),
        conflicts.len() as int,
    );
}

/// Sanitizing leaves readable the strings kept for deduplication (folder and
/// item names, login URIs, card numbers, custom field names, collection ids
/// and item metadata) and every string outside `items`: the replacement
/// applied to a string there is the string itself.
pub proof fn law_dedupe_fields_stay_readable(
    by_original: Map<Seq<char>, Seq<char>>,
    path: Seq<Seq<char>>,
    s: Seq<char>,
)
    requires
        should_preserve(path) || path.len() == 0 || path[0] != "items"@,
    ensures
        masked_with(by_original)(path, s) == s,
{
}

// ---------------------------------------------------------------------------
// Merging
/// Appending keeps the entries already there, in order, and afterwards every
/// appended entry is there or has an equal entry there.
pub proof fn law_append_keeps_entries(acc: Seq<Json>, ys: Seq<Json>)
    ensures
        append_unique(acc, ys).0.len() == acc.len() + append_unique(acc, ys).1,
        append_unique(acc, ys).0.take(acc.len() as int) == acc,
        forall|k: int|
            0 <= k < ys.len() ==> exists|i: int|
                0 <= i < append_unique(acc, ys).0.len() && (append_unique(acc, ys).0[i] == ys[k] || json_eq(
                    append_unique(acc, ys).0[i],
                    #[trigger] ys[k],
                )),
    decreases ys.len(),
{
    if ys.len() > 0 {
        let init = ys.drop_last();
        law_append_keeps_entries(acc, init);
        let (a, c) = append_unique(acc, init);
        let y = ys.last();
        let r = append_unique(acc, ys).0;
        if any_eq(a, y) {
            lemma_any_eq_witness(a, y);
        } else {
            assert(r == a.push(y));
            assert(r[a.len() as int] == y);
        }
        assert(a.take(acc.len() as int) == acc);
        assert(r.take(acc.len() as int) =~= acc);
        assert forall|k: int| 0 <= k < ys.len() implies exists|i: int|
            0 <= i < r.len() && (r[i] == ys[k] || json_eq(r[i], #[trigger] ys[k])) by {
            if k < ys.len() - 1 {
                assert(ys[k] == init[k]);
                let i = choose|i: int| 0 <= i < a.len() && (a[i] == init[k] || json_eq(a[i], init[k]));
                assert(r[i] == a[i]);
            } else if any_eq(a, y) {
                let i = choose|i: int| 0 <= i < a.len() && json_eq(a[i], y);
                assert(r[i] == a[i]);
            } else {
                assert(r[a.len() as int] == ys[k]);
            }
        }
    }
}

/// Appending adds only new entries: no appended entry equals an entry
/// before it.
pub proof fn law_append_adds_only_new(acc: Seq<Json>, ys: Seq<Json>)
    ensures
        forall|j: int|
            acc.len() <= j < append_unique(acc, ys).0.len() ==> !any_eq(
                append_unique(acc, ys).0.take(j),
                #[trigger] append_unique(acc, ys).0[j],
            ),
    decreases ys.len(),
{
    if ys.len() > 0 {
        let init = ys.drop_last();
        law_append_adds_only_new(acc, init);
        law_append_keeps_entries(acc, init);
        let (a, c) = append_unique(acc, init);
        let y = ys.last();
        let r = append_unique(acc, ys).0;
        if !any_eq(a, y) {
            assert forall|j: int| acc.len() <= j < r.len() implies !any_eq(r.take(j), #[trigger] r[j]) by {
                if j < a.len() {
                    assert(r.take(j) =~= a.take(j));
                    assert(r[j] == a[j]);
                } else {
                    assert(r.take(j) =~= a);
                }
            }
        }
    }
}

proof fn lemma_any_eq_witness(xs: Seq<Json>, y: Json)
    requires
        any_eq(xs, y),
    ensures
        exists|i: int| 0 <= i < xs.len() && json_eq(xs[i], y),
    decreases xs.len(),
{
    if any_eq(xs.drop_last(), y) {
        lemma_any_eq_witness(xs.drop_last(), y);
        let i = choose|i: int| 0 <= i < xs.drop_last().len() && json_eq(xs.drop_last()[i], y);
        assert(xs[i] == xs.drop_last()[i]);
    } else {
        assert(json_eq(xs[xs.len() - 1], y));
    }
}

/// A merge group whose items do not all have the first item's credentials
/// is left as it is: no item changes and none is removed.
pub proof fn law_conflicting_group_untouched(st: ApplyState, recs: Seq<RecordModel>, g: Seq<usize>, j: int)
    requires
        0 <= j < g.len(),
        credential_of(recs, g[0] as nat) is Some,
        credential_of(recs, g[j] as nat) != credential_of(recs, g[0] as nat),
    ensures
        group_step(st, recs, g).items == st.items,
        group_step(st, recs, g).removed == st.removed,
{
    let c = credential_of(recs, g[0] as nat)->0;
    assert(credential_of(recs, g[j] as nat) != Some(c));
}

/// Items are removed from a merge group only when every item of the group
/// has the first item's credentials.
pub proof fn law_removal_needs_shared_credentials(st: ApplyState, recs: Seq<RecordModel>, g: Seq<usize>)
    requires
        group_step(st, recs, g).removed != st.removed,
    ensures
        credential_of(recs, g[0] as nat) is Some,
        forall|j: int| 0 <= j < g.len() ==> credential_of(recs, #[trigger] g[j] as nat) == credential_of(recs, g[0] as nat),
{
}

proof fn lemma_merge_sources_lens(st: ApplyState, g: Seq<usize>, j: int)
    requires
        st.items.len() == st.removed.len(),
    ensures
        merge_sources(st, g, j).items.len() == st.items.len(),
        merge_sources(st, g, j).removed.len() == st.removed.len(),
    decreases j,
{
    if j > 1 {
        lemma_merge_sources_lens(st, g, j - 1);
    }
}

proof fn lemma_groups_step_lens(st: ApplyState, recs: Seq<RecordModel>, gs: Seq<Seq<usize>>, k: int)
    requires
        st.items.len() == st.removed.len(),
    ensures
        groups_step(st, recs, gs, k).items.len() == st.items.len(),
        groups_step(st, recs, gs, k).removed.len() == st.removed.len(),
    decreases k,
{
    if k > 0 {
        lemma_groups_step_lens(st, recs, gs, k - 1);
        let s1 = groups_step(st, recs, gs, k - 1);
        lemma_merge_sources_lens(s1, gs[k - 1], gs[k - 1].len() as int);
    }
}

proof fn lemma_kept_len(items: Seq<Json>, removed: Seq<bool>)
    requires
        items.len() == removed.len(),
    ensures
        kept(items, removed).len() + count_removed(removed) == items.len(),
    decreases items.len(),
{
    if items.len() > 0 {
        lemma_kept_len(items.drop_last(), removed.drop_last());
        lemma_kept_prefix(items.drop_last(), removed);
    }
}

proof fn lemma_kept_prefix(items: Seq<Json>, removed: Seq<bool>)
    requires
        items.len() <= removed.len(),
    ensures
        kept(items, removed) == kept(items, removed.take(items.len() as int)),
    decreases items.len(),
{
    if items.len() > 0 {
        lemma_kept_prefix(items.drop_last(), removed);
        lemma_kept_prefix(items.drop_last(), removed.take(items.len() as int));
        assert(removed.take(items.len() as int).take(items.len() - 1) =~= removed.take(items.len() - 1));
    }
}

/// Replacing the items of an export: its items are then the new ones.
proof fn lemma_with_items(value: Json, xs: Seq<Json>)
    requires
        export_items(value) is Some,
    ensures
        export_items(with_items(value, xs)) == Some(xs),
{
    let ms = value->Object_0;
    lemma_key_index(ms, "items"@);
    let i = key_index(ms, "items"@)->0;
    let ms2 = ms.update(i, ("items"@, Json::Array(xs)));
    lemma_key_index(ms2, "items"@);
    assert(ms2[i].0 == "items"@);
    if key_index(ms2, "items"@) != Some(i) {
        let j = key_index(ms2, "items"@)->0;
        assert(j < i);
        assert(ms2[j] == ms[j]);
    }
}

/// Merging removes exactly the items it reports removed: the export has as
/// many items fewer.
pub proof fn law_removed_items_are_gone(value: Json, manual: Seq<Seq<Seq<char>>>)
    requires
        export_items(value) is Some,
    ensures
        ({
            let (out, counts) = apply_merges(value, manual);
            &&& export_items(out) is Some
            &&& export_items(out)->0.len() + counts.removed_items == export_items(value)->0.len()
        }),
{
    let xs = export_items(value)->0;
    if xs.len() > 0 {
        let (out, counts) = apply_merges(value, manual);
        let n = xs.len();
        let cands = analysis(value, false).candidates;
        let recs = collected(value).2;
        let r0 = Seq::new(n, |i: int| i as usize);
        let r1 = crate::apply::candidate_unions(r0, cands, cands.len() as int);
        let (r2, matched, unmatched) = crate::apply::manual_all(r1, recs, manual, manual.len() as int);
        let gs = crate::apply::merge_groups(r2);
        let st0 = ApplyState {
            items: xs,
            removed: Seq::new(n, |i: int| false),
            counts: crate::apply::ApplyCounts {
                manual_groups_matched: matched,
                manual_groups_unmatched: unmatched,
                ..crate::apply::zero_counts()
            },
        };
        let st = groups_step(st0, recs, gs, gs.len() as int);
        lemma_groups_step_lens(st0, recs, gs, gs.len() as int);
        lemma_kept_len(st.items, st.removed);
        lemma_with_items(value, kept(st.items, st.removed));
    }
}

proof fn lemma_class_of_ascending(roots: Seq<usize>, v: int, k: int)
    requires
        0 <= k <= usize::MAX + 1,
    ensures
        forall|i: int, j: int|
            0 <= i < j < class_of(roots, v, k).len() ==> #[trigger] class_of(roots, v, k)[i] < #[trigger] class_of(
                roots,
                v,
                k,
            )[j],
        forall|i: int| 0 <= i < class_of(roots, v, k).len() ==> #[trigger] class_of(roots, v, k)[i] < k,
    decreases k,
{
    if k > 0 {
        lemma_class_of_ascending(roots, v, k - 1);
        let init = class_of(roots, v, k - 1);
        let out = class_of(roots, v, k);
        assert forall|i: int| 0 <= i < out.len() implies #[trigger] out[i] < k by {
            if i < init.len() {
                assert(out[i] == init[i]);
            }
        }
        assert forall|i: int, j: int| 0 <= i < j < out.len() implies #[trigger] out[i] < #[trigger] out[j] by {
            if j < init.len() {
                assert(out[i] == init[i] && out[j] == init[j]);
            } else {
                assert(out[i] == init[i]);
            }
        }
    }
}

proof fn lemma_classes_ascending(roots: Seq<usize>, v: int)
    requires
        roots.len() <= usize::MAX,
    ensures
        classes(roots, v).len() <= if v > 0 { v } else { 0 },
        forall|c: int, i: int, j: int|
            0 <= c < classes(roots, v).len() && 0 <= i < j < classes(roots, v)[c].len() ==> #[trigger] classes(
                roots,
                v,
            )[c][i] < #[trigger] classes(roots, v)[c][j],
    decreases v,
{
    if v > 0 {
        lemma_classes_ascending(roots, v - 1);
        lemma_class_of_ascending(roots, v - 1, roots.len() as int);
        let init = classes(roots, v - 1);
        let out = classes(roots, v);
        assert forall|c: int, i: int, j: int| 0 <= c < out.len() && 0 <= i < j < out[c].len() implies
            #[trigger] out[c][i] < #[trigger] out[c][j] by {
            if c < init.len() {
                assert(out[c] == init[c]);
            }
        }
    }
}

proof fn lemma_shared_classes_ascending(cs: Seq<Seq<usize>>, k: int)
    requires
        0 <= k <= cs.len(),
        forall|c: int, i: int, j: int| 0 <= c < cs.len() && 0 <= i < j < cs[c].len() ==> #[trigger] cs[c][i] < #[trigger] cs[c][j],
    ensures
        shared_classes(cs, k).len() <= k,
        forall|c: int, i: int, j: int|
            0 <= c < shared_classes(cs, k).len() && 0 <= i < j < shared_classes(cs, k)[c].len()
                ==> #[trigger] shared_classes(cs, k)[c][i] < #[trigger] shared_classes(cs, k)[c][j],
    decreases k,
{
    if k > 0 {
        lemma_shared_classes_ascending(cs, k - 1);
        let init = shared_classes(cs, k - 1);
        let out = shared_classes(cs, k);
        assert forall|c: int, i: int, j: int| 0 <= c < out.len() && 0 <= i < j < out[c].len() implies
            #[trigger] out[c][i] < #[trigger] out[c][j] by {
            if c < init.len() {
                assert(out[c] == init[c]);
            } else {
                assert(out[c] == cs[k - 1]);
            }
        }
    }
}

/// Each merge group lists its items in ascending order, so the item that
/// the others are merged into, the first, is the earliest of the group.
pub proof fn law_merge_groups_ascending(roots: Seq<usize>)
    requires
        roots.len() <= usize::MAX,
    ensures
        forall|g: int, i: int, j: int|
            0 <= g < merge_groups(roots).len() && 0 <= i < j < merge_groups(roots)[g].len() ==> #[trigger] merge_groups(
                roots,
            )[g][i] < #[trigger] merge_groups(roots)[g][j],
{
    let all = classes(roots, roots.len() as int);
    lemma_classes_ascending(roots, roots.len() as int);
    let cs = shared_classes(all, all.len() as int);
    lemma_shared_classes_ascending(all, all.len() as int);
    let keys = Seq::new(cs.len(), |i: int| min_key(cs[i]));
    lemma_sorted_order(keys, cs.len() as int);
    let o = sorted_order(keys, cs.len() as int);
    let out = merge_groups(roots);
    assert forall|g: int, i: int, j: int| 0 <= g < out.len() && 0 <= i < j < out[g].len() implies
        #[trigger] out[g][i] < #[trigger] out[g][j] by {
        assert(out[g] == cs[o[g] as int]);
    }
}

// ---------------------------------------------------------------------------
// Merge candidates share credentials
/// The credentials an item has when its record has username `u` and
/// password `p`.
pub open spec fn credential(u: Seq<char>, p: Seq<char>) -> (Seq<char>, Seq<char>, Seq<char>, Seq<char>) {
    (u, p, short_hash(seq![u]), short_hash(seq![u, p]))
}

/// Records come in ascending item order, each with the hashes of its
/// credentials.
proof fn lemma_records_upto(items: Seq<Json>, n: int)
    requires
        0 <= n <= items.len(),
    ensures
        forall|i: int, j: int|
            0 <= i < j < records_upto(items, n).len() ==> #[trigger] records_upto(items, n)[i].item_index
                < #[trigger] records_upto(items, n)[j].item_index,
        forall|i: int| 0 <= i < records_upto(items, n).len() ==> #[trigger] records_upto(items, n)[i].item_index < n,
        forall|i: int|
            0 <= i < records_upto(items, n).len() ==> #[trigger] cred_tuple(records_upto(items, n)[i]) == credential(
                records_upto(items, n)[i].username,
                records_upto(items, n)[i].password,
            ),
        forall|i: int|
            0 <= i < records_upto(items, n).len() ==> #[trigger] records_upto(items, n)[i].password_hash == short_hash(
                seq![records_upto(items, n)[i].password],
            ),
    decreases n,
{
    if n > 0 {
        lemma_records_upto(items, n - 1);
        let init = records_upto(items, n - 1);
        let out = records_upto(items, n);
        assert forall|i: int| 0 <= i < out.len() implies #[trigger] out[i].item_index < n by {
            if i < init.len() {
                assert(out[i] == init[i]);
            }
        }
        assert forall|i: int, j: int| 0 <= i < j < out.len() implies #[trigger] out[i].item_index
            < #[trigger] out[j].item_index by {
            assert(out[i] == init[i]);
            if j < init.len() {
                assert(out[j] == init[j]);
            }
        }
        assert forall|i: int| 0 <= i < out.len() implies #[trigger] cred_tuple(out[i]) == credential(
            out[i].username,
            out[i].password,
        ) by {
            if i < init.len() {
                assert(out[i] == init[i]);
            }
        }
        assert forall|i: int| 0 <= i < out.len() implies #[trigger] out[i].password_hash == short_hash(
            seq![out[i].password],
        ) by {
            if i < init.len() {
                assert(out[i] == init[i]);
            }
        }
    }
}

/// With records in ascending item order, an item's credentials are those of
/// its record.
proof fn lemma_credential_of(recs: Seq<RecordModel>, k: int)
    requires
        0 <= k < recs.len(),
        forall|i: int, j: int| 0 <= i < j < recs.len() ==> #[trigger] recs[i].item_index < #[trigger] recs[j].item_index,
    ensures
        credential_of(recs, recs[k].item_index) == Some(cred_tuple(recs[k])),
    decreases recs.len(),
{
    if k < recs.len() - 1 {
        let init = recs.drop_last();
        assert(recs[k] == init[k]);
        assert(recs[k].item_index < recs[recs.len() - 1].item_index);
        lemma_credential_of(init, k);
    }
}

/// The items all have one username and password, whose hashes are the
/// given ones.
pub open spec fn items_share_credentials(
    recs: Seq<RecordModel>,
    account_hash: Seq<char>,
    credential_hash: Seq<char>,
    items: Seq<ReportItemModel>,
) -> bool {
    exists|u: Seq<char>, p: Seq<char>|
        #![trigger credential(u, p)]
        account_hash == credential(u, p).2 && credential_hash == credential(u, p).3 && forall|i: int|
            0 <= i < items.len() ==> credential_of(recs, #[trigger] items[i].item_index) == Some(credential(u, p))
}

pub open spec fn shares_credentials(recs: Seq<RecordModel>, c: CandidateModel) -> bool {
    items_share_credentials(recs, c.account_hash, c.credential_hash, c.items)
}

pub open spec fn review_shares_credentials(recs: Seq<RecordModel>, g: ReviewModel) -> bool {
    items_share_credentials(recs, g.account_hash, g.credential_hash, g.items)
}

/// Records in ascending item order, each with the hashes of its credentials.
pub open spec fn well_formed_records(recs: Seq<RecordModel>) -> bool {
    &&& forall|i: int, j: int| 0 <= i < j < recs.len() ==> #[trigger] recs[i].item_index < #[trigger] recs[j].item_index
    &&& forall|i: int| 0 <= i < recs.len() ==> #[trigger] cred_tuple(recs[i]) == credential(recs[i].username, recs[i].password)
    &&& forall|i: int| 0 <= i < recs.len() ==> #[trigger] recs[i].password_hash == short_hash(seq![recs[i].password])
}

/// Indexes of records with username `u` and password `p`.
pub open spec fn all_with(recs: Seq<RecordModel>, ix: Seq<usize>, u: Seq<char>, p: Seq<char>) -> bool {
    forall|t: int|
        0 <= t < ix.len() ==> #[trigger] ix[t] < recs.len() && recs[ix[t] as int].username == u && recs[ix[t] as int].password
            == p
}

proof fn lemma_candidate_credentials(recs: Seq<RecordModel>, c: ComponentModel, u: Seq<char>, p: Seq<char>)
    requires
        well_formed_records(recs),
        c.indexes.len() > 1,
        c.indexes.len() <= usize::MAX,
        all_with(recs, c.indexes, u, p),
    ensures
        shares_credentials(recs, candidate(recs, c)),
{
    let rs = selected(recs, c.indexes);
    let k1 = Seq::new(rs.len(), |i: int| name_key(rs[i]));
    lemma_sorted_order(k1, rs.len() as int);
    let o1 = sorted_order(k1, rs.len() as int);
    let grs = sort_records(rs);
    let k2 = Seq::new(grs.len(), |i: int| name_key(grs[i]));
    lemma_sorted_order(k2, grs.len() as int);
    let o2 = sorted_order(k2, grs.len() as int);
    let cand = candidate(recs, c);
    assert(grs[0] == recs[c.indexes[o1[0] as int] as int]);
    lemma_credential_of(recs, c.indexes[o1[0] as int] as int);
    assert forall|i: int| 0 <= i < cand.items.len() implies credential_of(recs, #[trigger] cand.items[i].item_index)
        == Some(credential(u, p)) by {
        let t = o1[o2[i] as int] as int;
        assert(cand.items[i] == report_item(grs[o2[i] as int]));
        assert(grs[o2[i] as int] == recs[c.indexes[t] as int]);
        lemma_credential_of(recs, c.indexes[t] as int);
    }
    assert(credential(u, p).2 == cand.account_hash);
}

proof fn lemma_component_candidates_credentials(
    recs: Seq<RecordModel>,
    cs: Seq<ComponentModel>,
    u: Seq<char>,
    p: Seq<char>,
)
    requires
        well_formed_records(recs),
        forall|c: int| 0 <= c < cs.len() ==> #[trigger] cs[c].indexes.len() <= usize::MAX,
        forall|c: int| 0 <= c < cs.len() ==> all_with(recs, #[trigger] cs[c].indexes, u, p),
    ensures
        forall|i: int|
            0 <= i < component_candidates(recs, cs).len() ==> shares_credentials(
                recs,
                #[trigger] component_candidates(recs, cs)[i],
            ),
    decreases cs.len(),
{
    if cs.len() > 0 {
        lemma_component_candidates_credentials(recs, cs.drop_last(), u, p);
        let init = component_candidates(recs, cs.drop_last());
        let out = component_candidates(recs, cs);
        let c = cs.last();
        if c.indexes.len() > 1 {
            assert(all_with(recs, cs[cs.len() - 1].indexes, u, p));
            lemma_candidate_credentials(recs, c, u, p);
        }
        assert forall|i: int| 0 <= i < out.len() implies shares_credentials(recs, #[trigger] out[i]) by {
            if i < init.len() {
                assert(out[i] == init[i]);
            }
        }
    }
}

proof fn lemma_group_candidates_credentials(recs: Seq<RecordModel>, gs: Seq<Group>)
    requires
        well_formed_records(recs),
        forall|g: int| 0 <= g < gs.len() ==> #[trigger] gs[g].members.len() <= usize::MAX,
        forall|g: int| 0 <= g < gs.len() ==> #[trigger] gs[g].key.len() == 2,
        forall|g: int, m: int|
            0 <= g < gs.len() && 0 <= m < gs[g].members.len() ==> #[trigger] gs[g].members[m] < recs.len()
                && credential_keys(recs)[gs[g].members[m] as int] == gs[g].key,
    ensures
        forall|i: int|
            0 <= i < group_candidates(recs, gs).len() ==> shares_credentials(
                recs,
                #[trigger] group_candidates(recs, gs)[i],
            ),
    decreases gs.len(),
{
    if gs.len() > 0 {
        let init_gs = gs.drop_last();
        assert forall|g: int, m: int|
            0 <= g < init_gs.len() && 0 <= m < init_gs[g].members.len() implies #[trigger] init_gs[g].members[m]
            < recs.len() && credential_keys(recs)[init_gs[g].members[m] as int] == init_gs[g].key by {
            assert(init_gs[g] == gs[g]);
        }
        lemma_group_candidates_credentials(recs, init_gs);
        let init = group_candidates(recs, init_gs);
        let out = group_candidates(recs, gs);
        let g = gs.last();
        let gi = gs.len() - 1;
        if g.members.len() > 1 {
            let cs = related_components(recs, g.members);
            let u = g.key[0];
            let p = g.key[1];
            lemma_components_from(recs, g.members);
            lemma_components_partition(recs, g.members);
            lemma_comp_total_each(cs);
            assert forall|c: int| 0 <= c < cs.len() implies all_with(recs, #[trigger] cs[c].indexes, u, p) by {
                assert forall|t: int| 0 <= t < cs[c].indexes.len() implies #[trigger] cs[c].indexes[t] < recs.len()
                    && recs[cs[c].indexes[t] as int].username == u && recs[cs[c].indexes[t] as int].password == p by {
                    let x = cs[c].indexes[t];
                    assert(g.members.contains(x));
                    let m = choose|m: int| 0 <= m < g.members.len() && g.members[m] == x;
                    assert(gs[gi].members[m] == x);
                    let key = credential_keys(recs)[x as int];
                    assert(key == seq![recs[x as int].username, recs[x as int].password]);
                    assert(key == g.key);
                    assert(key[0] == u && key[1] == p);
                }
            }
            lemma_component_candidates_credentials(recs, cs, u, p);
            let more = component_candidates(recs, cs);
            assert forall|i: int| 0 <= i < out.len() implies shares_credentials(recs, #[trigger] out[i]) by {
                if i < init.len() {
                    assert(out[i] == init[i]);
                } else {
                    assert(out[i] == more[i - init.len()]);
                }
            }
        } else {
            assert forall|i: int| 0 <= i < out.len() implies shares_credentials(recs, #[trigger] out[i]) by {
                assert(out[i] == init[i]);
            }
        }
    }
}

/// Every merge candidate groups items of one account and password: each of
/// its items is the item of a login record with that username and password,
/// and the candidate reports the hashes of them.
pub proof fn law_candidates_share_credentials(value: Json, include_review_groups: bool)
    requires
        collected(value).2.len() <= usize::MAX,
    ensures
        forall|c: int|
            0 <= c < analysis(value, include_review_groups).candidates.len() ==> shares_credentials(
                collected(value).2,
                #[trigger] analysis(value, include_review_groups).candidates[c],
            ),
{
    let recs = collected(value).2;
    let n = recs.len() as int;
    match export_items(value) {
        Some(xs) => {
            lemma_records_upto(xs, xs.len() as int);
        },
        None => {},
    }
    assert(well_formed_records(recs));
    let keys = credential_keys(recs);
    let gs = group_all(keys, n);
    lemma_group_all(keys, n);
    lemma_group_all_keys(keys, n);
    lemma_total_members_each(gs);
    assert forall|g: int| 0 <= g < gs.len() implies #[trigger] gs[g].key.len() == 2 by {
        let x = gs[g].members[0];
        assert(keys[x as int] == gs[g].key);
    }
    lemma_group_candidates_credentials(recs, gs);
    let found = group_candidates(recs, gs);
    let a = analysis(value, include_review_groups);
    lemma_group_candidates_several(recs, gs);
    lemma_candidate_count(recs, gs);
    let ks = Seq::new(found.len(), |i: int| candidate_key(found[i]));
    lemma_sorted_order(ks, found.len() as int);
    let o = sorted_order(ks, found.len() as int);
    assert forall|c: int| 0 <= c < a.candidates.len() implies shares_credentials(recs, #[trigger] a.candidates[c]) by {
        let f = found[o[c] as int];
        assert(a.candidates[c].items == f.items);
        assert(a.candidates[c].account_hash == f.account_hash);
        assert(a.candidates[c].credential_hash == f.credential_hash);
        assert(shares_credentials(recs, f));
        let (u, p) = choose|u: Seq<char>, p: Seq<char>|
            #![trigger credential(u, p)]
            f.account_hash == credential(u, p).2 && f.credential_hash == credential(u, p).3 && forall|i: int|
                0 <= i < f.items.len() ==> credential_of(recs, #[trigger] f.items[i].item_index) == Some(credential(u, p));
        assert forall|i: int| 0 <= i < a.candidates[c].items.len() implies credential_of(
            recs,
            #[trigger] a.candidates[c].items[i].item_index,
        ) == Some(credential(u, p)) by {
            assert(a.candidates[c].items[i] == f.items[i]);
        }
    }
}

proof fn lemma_review_credentials(recs: Seq<RecordModel>, members: Seq<usize>, u: Seq<char>, p: Seq<char>)
    requires
        well_formed_records(recs),
        members.len() > 1,
        members.len() <= usize::MAX,
        all_with(recs, members, u, p),
    ensures
        review_shares_credentials(recs, review_of(recs, members)),
{
    let rs = selected(recs, members);
    let k1 = Seq::new(rs.len(), |i: int| name_key(rs[i]));
    lemma_sorted_order(k1, rs.len() as int);
    let o1 = sorted_order(k1, rs.len() as int);
    let g = review_of(recs, members);
    lemma_credential_of(recs, members[0] as int);
    assert forall|i: int| 0 <= i < g.items.len() implies credential_of(recs, #[trigger] g.items[i].item_index)
        == Some(credential(u, p)) by {
        assert(g.items[i] == report_item(rs[o1[i] as int]));
        lemma_credential_of(recs, members[o1[i] as int] as int);
    }
    assert(credential(u, p).2 == g.account_hash);
}

proof fn lemma_group_reviews_credentials(recs: Seq<RecordModel>, gs: Seq<Group>)
    requires
        well_formed_records(recs),
        forall|g: int| 0 <= g < gs.len() ==> #[trigger] gs[g].members.len() <= usize::MAX,
        forall|g: int| 0 <= g < gs.len() ==> #[trigger] gs[g].key.len() == 2,
        forall|g: int, m: int|
            0 <= g < gs.len() && 0 <= m < gs[g].members.len() ==> #[trigger] gs[g].members[m] < recs.len()
                && credential_keys(recs)[gs[g].members[m] as int] == gs[g].key,
    ensures
        forall|i: int|
            0 <= i < group_reviews(recs, gs).len() ==> review_shares_credentials(
                recs,
                #[trigger] group_reviews(recs, gs)[i],
            ),
    decreases gs.len(),
{
    if gs.len() > 0 {
        let init_gs = gs.drop_last();
        assert forall|g: int, m: int|
            0 <= g < init_gs.len() && 0 <= m < init_gs[g].members.len() implies #[trigger] init_gs[g].members[m]
            < recs.len() && credential_keys(recs)[init_gs[g].members[m] as int] == init_gs[g].key by {
            assert(init_gs[g] == gs[g]);
        }
        lemma_group_reviews_credentials(recs, init_gs);
        let init = group_reviews(recs, init_gs);
        let out = group_reviews(recs, gs);
        let g = gs.last();
        let gi = gs.len() - 1;
        if g.members.len() > 1 {
            let u = g.key[0];
            let p = g.key[1];
            assert forall|t: int| 0 <= t < g.members.len() implies #[trigger] g.members[t] < recs.len()
                && recs[g.members[t] as int].username == u && recs[g.members[t] as int].password == p by {
                assert(gs[gi].members[t] == g.members[t]);
                let key = credential_keys(recs)[g.members[t] as int];
                assert(key == seq![recs[g.members[t] as int].username, recs[g.members[t] as int].password]);
                assert(key[0] == u && key[1] == p);
            }
            lemma_review_credentials(recs, g.members, u, p);
        }
        assert forall|i: int| 0 <= i < out.len() implies review_shares_credentials(recs, #[trigger] out[i]) by {
            if i < init.len() {
                assert(out[i] == init[i]);
            }
        }
    }
}

/// Every review group holds items of one account and password, whose hashes
/// it reports.
pub proof fn law_reviews_share_credentials(value: Json)
    requires
        collected(value).2.len() <= usize::MAX,
    ensures
        forall|c: int|
            0 <= c < analysis(value, true).reviews.len() ==> review_shares_credentials(
                collected(value).2,
                #[trigger] analysis(value, true).reviews[c],
            ),
{
    let recs = collected(value).2;
    let n = recs.len() as int;
    match export_items(value) {
        Some(xs) => {
            lemma_records_upto(xs, xs.len() as int);
        },
        None => {},
    }
    let keys = credential_keys(recs);
    let gs = group_all(keys, n);
    lemma_group_all(keys, n);
    lemma_group_all_keys(keys, n);
    lemma_total_members_each(gs);
    assert forall|g: int| 0 <= g < gs.len() implies #[trigger] gs[g].key.len() == 2 by {
        let x = gs[g].members[0];
        assert(keys[x as int] == gs[g].key);
    }
    lemma_group_reviews_credentials(recs, gs);
    let found = group_reviews(recs, gs);
    let a = analysis(value, true);
    lemma_group_reviews_count(recs, gs);
    let ks = Seq::new(found.len(), |i: int| review_key(found[i]));
    lemma_sorted_order(ks, found.len() as int);
    let o = sorted_order(ks, found.len() as int);
    assert forall|c: int| 0 <= c < a.reviews.len() implies review_shares_credentials(recs, #[trigger] a.reviews[c]) by {
        let f = found[o[c] as int];
        assert(a.reviews[c].items == f.items);
        assert(a.reviews[c].account_hash == f.account_hash);
        assert(a.reviews[c].credential_hash == f.credential_hash);
    }
}

pub proof fn lemma_group_reviews_count(recs: Seq<RecordModel>, gs: Seq<Group>)
    ensures
        group_reviews(recs, gs).len() <= gs.len(),
    decreases gs.len(),
{
    if gs.len() > 0 {
        lemma_group_reviews_count(recs, gs.drop_last());
    }
}

// ---------------------------------------------------------------------------
// Password conflicts
/// The password of a variant: that of the record of its first item.
pub open spec fn variant_password(recs: Seq<RecordModel>, v: VariantModel) -> Seq<char> {
    match credential_of(recs, v.items[0].item_index) {
        Some(t) => t.1,
        None => Seq::empty(),
    }
}

/// The items of a variant are all items of records with username `u` and
/// the variant's password, whose hash the variant reports.
pub open spec fn variant_sound(recs: Seq<RecordModel>, u: Seq<char>, v: VariantModel) -> bool {
    &&& v.items.len() > 0
    &&& v.password_hash == short_hash(seq![variant_password(recs, v)])
    &&& forall|i: int|
        0 <= i < v.items.len() ==> credential_of(recs, #[trigger] v.items[i].item_index) == Some(
            credential(u, variant_password(recs, v)),
        )
}

/// A conflict lists items of one account whose hash it reports, grouped by
/// password, each group with a different password.
pub open spec fn conflict_sound(recs: Seq<RecordModel>, c: ConflictModel) -> bool {
    exists|u: Seq<char>|
        #![trigger short_hash(seq![u])]
        c.account_hash == short_hash(seq![u]) && (forall|k: int|
            0 <= k < c.variants.len() ==> variant_sound(recs, u, #[trigger] c.variants[k])) && (forall|a: int, b: int|
            0 <= a < b < c.variants.len() ==> variant_password(recs, #[trigger] c.variants[a]) != variant_password(
                recs,
                #[trigger] c.variants[b],
            ))
}

/// Indexes of records with username `u`.
pub open spec fn all_of_account(recs: Seq<RecordModel>, ix: Seq<usize>, u: Seq<char>) -> bool {
    forall|t: int| 0 <= t < ix.len() ==> #[trigger] ix[t] < recs.len() && recs[ix[t] as int].username == u
}

proof fn lemma_variant_sound(recs: Seq<RecordModel>, idx: Seq<usize>, pkeys: Seq<Seq<Seq<char>>>, pg: Group, u: Seq<char>)
    requires
        well_formed_records(recs),
        all_of_account(recs, idx, u),
        idx.len() <= usize::MAX,
        pkeys == password_keys(recs, idx),
        pg.members.len() > 0,
        pg.members.len() <= usize::MAX,
        pg.key.len() == 1,
        forall|m: int| 0 <= m < pg.members.len() ==> #[trigger] pg.members[m] < idx.len() && pkeys[pg.members[m] as int] == pg.key,
    ensures
        variant_sound(recs, u, variant(recs, idx, pg)),
        variant_password(recs, variant(recs, idx, pg)) == pg.key[0],
{
    let sel = Seq::new(pg.members.len(), |j: int| idx[pg.members[j] as int]);
    let vrs = selected(recs, sel);
    let v = variant(recs, idx, pg);
    let pw = pg.key[0];
    let k1 = Seq::new(vrs.len(), |i: int| name_key(vrs[i]));
    lemma_sorted_order(k1, vrs.len() as int);
    let o1 = sorted_order(k1, vrs.len() as int);
    assert forall|j: int| 0 <= j < sel.len() implies #[trigger] sel[j] < recs.len() && recs[sel[j] as int].username == u
        && recs[sel[j] as int].password == pw by {
        let m = pg.members[j];
        assert(pkeys[m as int] == seq![recs[idx[m as int] as int].password]);
        assert(pkeys[m as int][0] == pw);
    }
    assert forall|i: int| 0 <= i < v.items.len() implies credential_of(recs, #[trigger] v.items[i].item_index) == Some(
        credential(u, pw),
    ) by {
        assert(v.items[i] == report_item(vrs[o1[i] as int]));
        lemma_credential_of(recs, sel[o1[i] as int] as int);
    }
    assert(v.items.len() > 0);
    assert(credential_of(recs, v.items[0].item_index) == Some(credential(u, pw)));
    assert(v.password_hash == recs[sel[0] as int].password_hash);
}

proof fn lemma_conflict_sound(recs: Seq<RecordModel>, c: ComponentModel, u: Seq<char>)
    requires
        well_formed_records(recs),
        c.indexes.len() > 1,
        c.indexes.len() <= usize::MAX,
        all_of_account(recs, c.indexes, u),
        conflict_of(recs, c) is Some,
    ensures
        conflict_sound(recs, conflict_of(recs, c)->0),
{
    let idx = c.indexes;
    let pkeys = password_keys(recs, idx);
    let n = idx.len() as int;
    let pgs = group_all(pkeys, n);
    lemma_group_all(pkeys, n);
    lemma_group_all_keys(pkeys, n);
    lemma_group_all_distinct(pkeys, n);
    lemma_total_members_each(pgs);
    let cm = conflict_of(recs, c)->0;
    let rs = selected(recs, idx);
    let k1 = Seq::new(rs.len(), |i: int| name_key(rs[i]));
    lemma_sorted_order(k1, rs.len() as int);
    let o1 = sorted_order(k1, rs.len() as int);
    assert(cm.account_hash == sort_records(rs)[0].account_hash);
    assert(sort_records(rs)[0] == recs[idx[o1[0] as int] as int]);
    assert(cred_tuple(recs[idx[o1[0] as int] as int]) == credential(u, recs[idx[o1[0] as int] as int].password));
    assert forall|k: int| 0 <= k < cm.variants.len() implies variant_sound(recs, u, #[trigger] cm.variants[k])
        && variant_password(recs, cm.variants[k]) == pgs[k].key[0] by {
        let pg = pgs[k];
        let x = pg.members[0];
        assert(pkeys[x as int] == pg.key);
        assert forall|m: int| 0 <= m < pg.members.len() implies #[trigger] pg.members[m] < idx.len() && pkeys[pg.members[m] as int]
            == pg.key by {
            assert(pgs[k].members[m] == pg.members[m]);
        }
        lemma_variant_sound(recs, idx, pkeys, pg, u);
    }
    assert forall|a: int, b: int| 0 <= a < b < cm.variants.len() implies variant_password(recs, #[trigger] cm.variants[a])
        != variant_password(recs, #[trigger] cm.variants[b]) by {
        assert(variant_password(recs, cm.variants[a]) == pgs[a].key[0]);
        assert(variant_password(recs, cm.variants[b]) == pgs[b].key[0]);
        assert(pgs[a].key != pgs[b].key);
        let xa = pgs[a].members[0];
        let xb = pgs[b].members[0];
        assert(pkeys[xa as int] == pgs[a].key);
        assert(pkeys[xb as int] == pgs[b].key);
        if pgs[a].key[0] == pgs[b].key[0] {
            assert(pgs[a].key =~= pgs[b].key);
        }
    }
    assert(short_hash(seq![u]) == cm.account_hash);
}

proof fn lemma_component_conflicts_sound(recs: Seq<RecordModel>, cs: Seq<ComponentModel>, u: Seq<char>)
    requires
        well_formed_records(recs),
        forall|c: int| 0 <= c < cs.len() ==> #[trigger] cs[c].indexes.len() <= usize::MAX,
        forall|c: int| 0 <= c < cs.len() ==> all_of_account(recs, #[trigger] cs[c].indexes, u),
    ensures
        forall|i: int|
            0 <= i < component_conflicts(recs, cs).len() ==> conflict_sound(
                recs,
                #[trigger] component_conflicts(recs, cs)[i],
            ),
    decreases cs.len(),
{
    if cs.len() > 0 {
        lemma_component_conflicts_sound(recs, cs.drop_last(), u);
        let init = component_conflicts(recs, cs.drop_last());
        let out = component_conflicts(recs, cs);
        let c = cs.last();
        if c.indexes.len() > 1 && conflict_of(recs, c) is Some {
            assert(all_of_account(recs, cs[cs.len() - 1].indexes, u));
            lemma_conflict_sound(recs, c, u);
        }
        assert forall|i: int| 0 <= i < out.len() implies conflict_sound(recs, #[trigger] out[i]) by {
            if i < init.len() {
                assert(out[i] == init[i]);
            }
        }
    }
}

proof fn lemma_group_conflicts_sound(recs: Seq<RecordModel>, gs: Seq<Group>)
    requires
        well_formed_records(recs),
        forall|g: int| 0 <= g < gs.len() ==> #[trigger] gs[g].members.len() <= usize::MAX,
        forall|g: int| 0 <= g < gs.len() ==> #[trigger] gs[g].key.len() == 1,
        forall|g: int, m: int|
            0 <= g < gs.len() && 0 <= m < gs[g].members.len() ==> #[trigger] gs[g].members[m] < recs.len()
                && account_keys(recs)[gs[g].members[m] as int] == gs[g].key,
    ensures
        forall|i: int|
            0 <= i < group_conflicts(recs, gs).len() ==> conflict_sound(recs, #[trigger] group_conflicts(recs, gs)[i]),
    decreases gs.len(),
{
    if gs.len() > 0 {
        let init_gs = gs.drop_last();
        assert forall|g: int, m: int|
            0 <= g < init_gs.len() && 0 <= m < init_gs[g].members.len() implies #[trigger] init_gs[g].members[m]
            < recs.len() && account_keys(recs)[init_gs[g].members[m] as int] == init_gs[g].key by {
            assert(init_gs[g] == gs[g]);
        }
        lemma_group_conflicts_sound(recs, init_gs);
        let init = group_conflicts(recs, init_gs);
        let out = group_conflicts(recs, gs);
        let g = gs.last();
        let gi = gs.len() - 1;
        if g.members.len() > 1 {
            let cs = related_components(recs, g.members);
            let u = g.key[0];
            lemma_components_from(recs, g.members);
            lemma_components_partition(recs, g.members);
            lemma_comp_total_each(cs);
            assert forall|c: int| 0 <= c < cs.len() implies all_of_account(recs, #[trigger] cs[c].indexes, u) by {
                assert forall|t: int| 0 <= t < cs[c].indexes.len() implies #[trigger] cs[c].indexes[t] < recs.len()
                    && recs[cs[c].indexes[t] as int].username == u by {
                    let x = cs[c].indexes[t];
                    assert(g.members.contains(x));
                    let m = choose|m: int| 0 <= m < g.members.len() && g.members[m] == x;
                    assert(gs[gi].members[m] == x);
                    let key = account_keys(recs)[x as int];
                    assert(key == seq![recs[x as int].username]);
                    assert(key == g.key);
                    assert(key[0] == u);
                }
            }
            lemma_component_conflicts_sound(recs, cs, u);
            let more = component_conflicts(recs, cs);
            assert forall|i: int| 0 <= i < out.len() implies conflict_sound(recs, #[trigger] out[i]) by {
                if i < init.len() {
                    assert(out[i] == init[i]);
                } else {
                    assert(out[i] == more[i - init.len()]);
                }
            }
        } else {
            assert forall|i: int| 0 <= i < out.len() implies conflict_sound(recs, #[trigger] out[i]) by {
                assert(out[i] == init[i]);
            }
        }
    }
}

proof fn lemma_group_conflicts_count(recs: Seq<RecordModel>, gs: Seq<Group>)
    requires
        forall|g: int| 0 <= g < gs.len() ==> #[trigger] gs[g].members.len() <= usize::MAX,
    ensures
        group_conflicts(recs, gs).len() <= total_members(gs),
    decreases gs.len(),
{
    if gs.len() > 0 {
        let init_gs = gs.drop_last();
        assert forall|g: int| 0 <= g < init_gs.len() implies #[trigger] init_gs[g].members.len() <= usize::MAX by {
            assert(init_gs[g] == gs[g]);
        }
        lemma_group_conflicts_count(recs, init_gs);
        let g = gs.last();
        if g.members.len() > 1 {
            let cs = related_components(recs, g.members);
            lemma_components_partition(recs, g.members);
            lemma_component_conflicts_count(recs, cs);
        }
    }
}

proof fn lemma_component_conflicts_count(recs: Seq<RecordModel>, cs: Seq<ComponentModel>)
    ensures
        component_conflicts(recs, cs).len() <= crate::relate::comp_total(cs),
    decreases cs.len(),
{
    if cs.len() > 0 {
        lemma_component_conflicts_count(recs, cs.drop_last());
    }
}

/// Every password conflict lists items of one account, whose hash it
/// reports, grouped by password: each group's items have one password, whose
/// hash the group reports, and no two groups have the same password.
pub proof fn law_conflicts_group_passwords(value: Json, include_review_groups: bool)
    requires
        collected(value).2.len() <= usize::MAX,
    ensures
        forall|c: int|
            0 <= c < analysis(value, include_review_groups).conflicts.len() ==> conflict_sound(
                collected(value).2,
                #[trigger] analysis(value, include_review_groups).conflicts[c],
            ),
{
    let recs = collected(value).2;
    let n = recs.len() as int;
    match export_items(value) {
        Some(xs) => {
            lemma_records_upto(xs, xs.len() as int);
        },
        None => {},
    }
    let keys = account_keys(recs);
    let gs = group_all(keys, n);
    lemma_group_all(keys, n);
    lemma_group_all_keys(keys, n);
    lemma_total_members_each(gs);
    assert forall|g: int| 0 <= g < gs.len() implies #[trigger] gs[g].key.len() == 1 by {
        let x = gs[g].members[0];
        assert(keys[x as int] == gs[g].key);
    }
    lemma_group_conflicts_sound(recs, gs);
    lemma_group_conflicts_count(recs, gs);
    let found = group_conflicts(recs, gs);
    let a = analysis(value, include_review_groups);
    let ks = Seq::new(found.len(), |i: int| conflict_key(found[i]));
    lemma_sorted_order(ks, found.len() as int);
    let o = sorted_order(ks, found.len() as int);
    assert forall|c: int| 0 <= c < a.conflicts.len() implies conflict_sound(recs, #[trigger] a.conflicts[c]) by {
        let f = found[o[c] as int];
        assert(a.conflicts[c].variants == f.variants);
        assert(a.conflicts[c].account_hash == f.account_hash);
    }
}

/// A manual URI group joins its matched items only when there are at least
/// two and all of them share one username and password; otherwise it joins
/// nothing and counts as unmatched.
pub proof fn law_manual_group_needs_one_credential(
    roots: Seq<usize>,
    recs: Seq<RecordModel>,
    requested: Seq<Seq<char>>,
)
    ensures
        ({
            let rs = crate::apply::requested_records(recs, requested, recs.len() as int);
            let (joined, matched) = crate::apply::manual_step(roots, recs, requested);
            &&& matched <==> rs.len() >= 2 && forall|i: int|
                0 <= i < rs.len() ==> #[trigger] rs[i].username == rs[0].username && rs[i].password == rs[0].password
            &&& !matched ==> joined == roots
        }),
{
    let rs = crate::apply::requested_records(recs, requested, recs.len() as int);
    if rs.len() >= 2 && crate::apply::one_credential(rs) {
        assert forall|i: int| 0 <= i < rs.len() implies #[trigger] rs[i].username == rs[0].username
            && rs[i].password == rs[0].password by {
            assert(crate::apply::same_credential(rs[i], rs[0]));
        }
    } else if rs.len() >= 2 {
        let i = choose|i: int| 0 <= i < rs.len() && !#[trigger] crate::apply::same_credential(rs[i], rs[0]);
        assert(!(rs[i].username == rs[0].username && rs[i].password == rs[0].password));
    }
}

/// The report states the numbers of groups it lists: its summary gives the
/// number of high-confidence merge candidates, of groups of one account and
/// site with different passwords, and of review-only groups that the
/// analysis lists.
pub proof fn law_markdown_counts_listed_groups(value: Json, include_review_groups: bool)
    ensures
        ({
            let a = analysis(value, include_review_groups);
            let m = crate::markdown::markdown(a);
            &&& crate::markdown::has_segment(
                m,
                "- Same account/site with different passwords: "@ + decimal(a.conflicts.len()) + " groups\n"@,
            )
            &&& crate::markdown::has_segment(
                m,
                "- High-confidence merge candidates: "@ + decimal(a.candidates.len()) + " groups, "@ + decimal(
                    a.summary.high_confidence_merge_items,
                ) + " items\n"@,
            )
            &&& crate::markdown::has_segment(
                m,
                "- Review-only reused credential groups: "@ + decimal(a.reviews.len()) + "\n\n"@,
            )
        }),
{
    law_summary_counts_listed_groups(value, include_review_groups);
    crate::markdown::law_markdown_reports_counts(analysis(value, include_review_groups));
}

} // verus!
