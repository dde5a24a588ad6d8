//! Finding login items that can be merged: items with the same credentials
//! on related services, items with the same account on related services but
//! different passwords, and reused credentials that need a human look.
use vstd::prelude::*;

use crate::group::{
    arrange, group_all, group_by, group_views, key_views, keys_of, lemma_group_all,
    lemma_place_from_bounds, lemma_sorted_order, lemma_sorted_order_sorted, lemma_total_members_each,
    place_from, sort_key_lt, sorted_order, stable_sort, total_members, Group, Keyed,
};
use crate::json::{Json, JsonValue};
use crate::records::{collect_login_records, collected, record_models, LoginRecord, RecordModel};
use crate::relate::{
    comp_total, component_models, lemma_comp_total_each, lemma_comp_total_prefix,
    lemma_components_bounded, lemma_components_partition, lemma_shared_total_bound,
    record_models_of, related_components, related_components_exec, shared_total,
    summarize_reasons, summarize_reasons_exec, Component, ComponentModel,
};
use crate::report::{
    item_models, report_items, report_items_exec, selected,
    service_summary, service_summary_exec, sort_records, sort_selection, ReportItem,
    ReportItemModel, lemma_report_lens,
};
use crate::strset::strs;
use crate::text::{fmt_zero_padded, owned, push_str, text_lt, str_is, zero_padded};

verus! {

// ---------------------------------------------------------------------------
// Results
/// Whether groups of reused credentials that are not confidently related are
/// reported for review.
#[derive(Debug, Clone)]
pub struct AnalyzeOptions {
    pub include_review_groups: bool,
}

impl Default for AnalyzeOptions {
    fn default() -> (r: Self)
        ensures
            r.include_review_groups,
    {
        AnalyzeOptions { include_review_groups: true }
    }
}

/// Counts over the export.
#[derive(Debug, Clone)]
pub struct AnalysisSummary {
    pub total_items: usize,
    pub login_items: usize,
    pub login_items_with_username_password: usize,
    pub duplicate_credential_groups: usize,
    pub duplicate_credential_items: usize,
    pub high_confidence_merge_groups: usize,
    pub high_confidence_merge_items: usize,
    pub password_conflict_groups: usize,
    pub review_groups: usize,
}

/// Items with the same account and password on related services.
#[derive(Debug, Clone)]
pub struct MergeCandidate {
    pub id: String,
    pub account_hash: String,
    pub credential_hash: String,
    pub service: String,
    pub reason: String,
    pub items: Vec<ReportItem>,
}

/// The items of one password among items of the same account.
#[derive(Debug, Clone)]
pub struct PasswordVariant {
    pub password_hash: String,
    pub items: Vec<ReportItem>,
}

/// Items of the same account on related services with different passwords.
#[derive(Debug, Clone)]
pub struct PasswordConflict {
    pub id: String,
    pub account_hash: String,
    pub service: String,
    pub reason: String,
    pub password_variants: Vec<PasswordVariant>,
}

/// Items with the same account and password whose services were not all
/// confidently related.
#[derive(Debug, Clone)]
pub struct ReviewGroup {
    pub id: String,
    pub account_hash: String,
    pub credential_hash: String,
    pub reason: String,
    pub service_summary: String,
    pub items: Vec<ReportItem>,
}

/// The result of an analysis.
#[derive(Debug, Clone)]
pub struct MergeAnalysis {
    pub summary: AnalysisSummary,
    pub high_confidence_merge_candidates: Vec<MergeCandidate>,
    pub same_account_site_different_passwords: Vec<PasswordConflict>,
    pub review_groups: Vec<ReviewGroup>,
}

// ---------------------------------------------------------------------------
// Models
pub struct SummaryModel {
    pub total_items: nat,
    pub login_items: nat,
    pub login_items_with_username_password: nat,
    pub duplicate_credential_groups: nat,
    pub duplicate_credential_items: nat,
    pub high_confidence_merge_groups: nat,
    pub high_confidence_merge_items: nat,
    pub password_conflict_groups: nat,
    pub review_groups: nat,
}

pub struct CandidateModel {
    pub id: Seq<char>,
    pub account_hash: Seq<char>,
    pub credential_hash: Seq<char>,
    pub service: Seq<char>,
    pub reason: Seq<char>,
    pub items: Seq<ReportItemModel>,
}

pub struct VariantModel {
    pub password_hash: Seq<char>,
    pub items: Seq<ReportItemModel>,
}

pub struct ConflictModel {
    pub id: Seq<char>,
    pub account_hash: Seq<char>,
    pub service: Seq<char>,
    pub reason: Seq<char>,
    pub variants: Seq<VariantModel>,
}

pub struct ReviewModel {
    pub id: Seq<char>,
    pub account_hash: Seq<char>,
    pub credential_hash: Seq<char>,
    pub reason: Seq<char>,
    pub service_summary: Seq<char>,
    pub items: Seq<ReportItemModel>,
}

pub struct AnalysisModel {
    pub summary: SummaryModel,
    pub candidates: Seq<CandidateModel>,
    pub conflicts: Seq<ConflictModel>,
    pub reviews: Seq<ReviewModel>,
}

impl AnalysisSummary {
    pub open spec fn model(&self) -> SummaryModel {
        SummaryModel {
            total_items: self.total_items as nat,
            login_items: self.login_items as nat,
            login_items_with_username_password: self.login_items_with_username_password as nat,
            duplicate_credential_groups: self.duplicate_credential_groups as nat,
            duplicate_credential_items: self.duplicate_credential_items as nat,
            high_confidence_merge_groups: self.high_confidence_merge_groups as nat,
            high_confidence_merge_items: self.high_confidence_merge_items as nat,
            password_conflict_groups: self.password_conflict_groups as nat,
            review_groups: self.review_groups as nat,
        }
    }
}

impl MergeCandidate {
    pub open spec fn model(&self) -> CandidateModel {
        CandidateModel {
            id: self.id@,
            account_hash: self.account_hash@,
            credential_hash: self.credential_hash@,
            service: self.service@,
            reason: self.reason@,
            items: item_models(self.items@),
        }
    }
}

impl PasswordVariant {
    pub open spec fn model(&self) -> VariantModel {
        VariantModel { password_hash: self.password_hash@, items: item_models(self.items@) }
    }
}

impl PasswordConflict {
    pub open spec fn model(&self) -> ConflictModel {
        ConflictModel {
            id: self.id@,
            account_hash: self.account_hash@,
            service: self.service@,
            reason: self.reason@,
            variants: variant_models(self.password_variants@),
        }
    }
}

impl ReviewGroup {
    pub open spec fn model(&self) -> ReviewModel {
        ReviewModel {
            id: self.id@,
            account_hash: self.account_hash@,
            credential_hash: self.credential_hash@,
            reason: self.reason@,
            service_summary: self.service_summary@,
            items: item_models(self.items@),
        }
    }
}

impl MergeAnalysis {
    pub open spec fn model(&self) -> AnalysisModel {
        AnalysisModel {
            summary: self.summary.model(),
            candidates: candidate_models(self.high_confidence_merge_candidates@),
            conflicts: conflict_models(self.same_account_site_different_passwords@),
            reviews: review_models(self.review_groups@),
        }
    }
}

pub open spec fn candidate_models(v: Seq<MergeCandidate>) -> Seq<CandidateModel> {
    Seq::new(v.len(), |i: int| v[i].model())
}

pub open spec fn variant_models(v: Seq<PasswordVariant>) -> Seq<VariantModel> {
    Seq::new(v.len(), |i: int| v[i].model())
}

pub open spec fn conflict_models(v: Seq<PasswordConflict>) -> Seq<ConflictModel> {
    Seq::new(v.len(), |i: int| v[i].model())
}

pub open spec fn review_models(v: Seq<ReviewGroup>) -> Seq<ReviewModel> {
    Seq::new(v.len(), |i: int| v[i].model())
}

// ---------------------------------------------------------------------------
// Specification
/// Records grouped by account and password.
pub open spec fn credential_keys(recs: Seq<RecordModel>) -> Seq<Seq<Seq<char>>> {
    Seq::new(recs.len(), |i: int| seq![recs[i].username, recs[i].password])
}

/// Records grouped by account.
pub open spec fn account_keys(recs: Seq<RecordModel>) -> Seq<Seq<Seq<char>>> {
    Seq::new(recs.len(), |i: int| seq![recs[i].username])
}

/// The records at `idx` grouped by password.
pub open spec fn password_keys(recs: Seq<RecordModel>, idx: Seq<usize>) -> Seq<Seq<Seq<char>>> {
    Seq::new(idx.len(), |i: int| seq![recs[idx[i] as int].password])
}

/// The candidate made of a group of related records.
pub open spec fn candidate(recs: Seq<RecordModel>, c: ComponentModel) -> CandidateModel {
    let grs = sort_records(selected(recs, c.indexes));
    CandidateModel {
        id: Seq::empty(),
        account_hash: grs[0].account_hash,
        credential_hash: grs[0].credential_hash,
        service: service_summary(grs),
        reason: summarize_reasons(c.reasons),
        items: report_items(grs),
    }
}

/// Candidates of the groups of more than one record.
pub open spec fn component_candidates(recs: Seq<RecordModel>, cs: Seq<ComponentModel>) -> Seq<CandidateModel>
    decreases cs.len(),
{
    if cs.len() == 0 {
        Seq::empty()
    } else {
        let init = component_candidates(recs, cs.drop_last());
        if cs.last().indexes.len() > 1 {
            init.push(candidate(recs, cs.last()))
        } else {
            init
        }
    }
}

/// Candidates of every credential group of more than one record, in group
/// order.
pub open spec fn group_candidates(recs: Seq<RecordModel>, gs: Seq<Group>) -> Seq<CandidateModel>
    decreases gs.len(),
{
    if gs.len() == 0 {
        Seq::empty()
    } else {
        let init = group_candidates(recs, gs.drop_last());
        if gs.last().members.len() > 1 {
            init + component_candidates(recs, related_components(recs, gs.last().members))
        } else {
            init
        }
    }
}

pub open spec fn review_reason() -> Seq<char> {
    "same account/password appears in services that were not confidently related"@
}

/// The review group of a credential group.
pub open spec fn review_of(recs: Seq<RecordModel>, members: Seq<usize>) -> ReviewModel {
    let rs = selected(recs, members);
    ReviewModel {
        id: Seq::empty(),
        account_hash: rs[0].account_hash,
        credential_hash: rs[0].credential_hash,
        reason: review_reason(),
        service_summary: service_summary(rs),
        items: report_items(rs),
    }
}

/// Review groups of the credential groups of more than one record that are
/// not wholly covered by candidates.
pub open spec fn group_reviews(recs: Seq<RecordModel>, gs: Seq<Group>) -> Seq<ReviewModel>
    decreases gs.len(),
{
    if gs.len() == 0 {
        Seq::empty()
    } else {
        let init = group_reviews(recs, gs.drop_last());
        let g = gs.last();
        if g.members.len() > 1 && shared_total(related_components(recs, g.members)) != g.members.len() {
            init.push(review_of(recs, g.members))
        } else {
            init
        }
    }
}

/// The records of one password among the records at `idx`.
pub open spec fn variant(recs: Seq<RecordModel>, idx: Seq<usize>, pg: Group) -> VariantModel {
    let vrs = selected(recs, Seq::new(pg.members.len(), |j: int| idx[pg.members[j] as int]));
    VariantModel { password_hash: vrs[0].password_hash, items: report_items(vrs) }
}

/// The conflict of a group of related records of one account, when they
/// have more than one password.
pub open spec fn conflict_of(recs: Seq<RecordModel>, c: ComponentModel) -> Option<ConflictModel> {
    let pgs = group_all(password_keys(recs, c.indexes), c.indexes.len() as int);
    if pgs.len() <= 1 {
        None
    } else {
        let grs = sort_records(selected(recs, c.indexes));
        Some(
            ConflictModel {
                id: Seq::empty(),
                account_hash: grs[0].account_hash,
                service: service_summary(grs),
                reason: summarize_reasons(c.reasons),
                variants: Seq::new(pgs.len(), |k: int| variant(recs, c.indexes, pgs[k])),
            },
        )
    }
}

pub open spec fn component_conflicts(recs: Seq<RecordModel>, cs: Seq<ComponentModel>) -> Seq<ConflictModel>
    decreases cs.len(),
{
    if cs.len() == 0 {
        Seq::empty()
    } else {
        let init = component_conflicts(recs, cs.drop_last());
        if cs.last().indexes.len() > 1 {
            match conflict_of(recs, cs.last()) {
                Some(c) => init.push(c),
                None => init,
            }
        } else {
            init
        }
    }
}

/// `password_conflicts`: conflicts of every account group of more than one
/// record, in group order.
pub open spec fn group_conflicts(recs: Seq<RecordModel>, gs: Seq<Group>) -> Seq<ConflictModel>
    decreases gs.len(),
{
    if gs.len() == 0 {
        Seq::empty()
    } else {
        let init = group_conflicts(recs, gs.drop_last());
        if gs.last().members.len() > 1 {
            init + component_conflicts(recs, related_components(recs, gs.last().members))
        } else {
            init
        }
    }
}

/// `next_id`: the prefix, a hyphen and the number with at least three digits.
pub open spec fn next_id(prefix: Seq<char>, n: nat) -> Seq<char> {
    prefix + "-"@ + zero_padded(n, 3)
}

/// Index of the first item (there always is one).
pub open spec fn first_index(items: Seq<ReportItemModel>) -> nat {
    if items.len() > 0 {
        items[0].item_index
    } else {
        0
    }
}

pub open spec fn candidate_key(c: CandidateModel) -> (Seq<char>, Seq<char>, nat) {
    (c.service, Seq::empty(), first_index(c.items))
}

pub open spec fn review_key(g: ReviewModel) -> (Seq<char>, Seq<char>, nat) {
    (g.service_summary, Seq::empty(), first_index(g.items))
}

pub open spec fn conflict_key(c: ConflictModel) -> (Seq<char>, Seq<char>, nat) {
    (c.service, c.account_hash, 0)
}

/// Candidates numbered in order.
pub open spec fn numbered_candidates(s: Seq<CandidateModel>) -> Seq<CandidateModel> {
    Seq::new(
        s.len(),
        |i: int|
            CandidateModel {
                id: next_id("merge"@, (i + 1) as nat),
                account_hash: s[i].account_hash,
                credential_hash: s[i].credential_hash,
                service: s[i].service,
                reason: s[i].reason,
                items: s[i].items,
            },
    )
}

/// Candidates sorted by service, then first item index, and numbered in that
/// order.
pub open spec fn sorted_candidates(cs: Seq<CandidateModel>) -> Seq<CandidateModel> {
    numbered_candidates(
        arrange(cs, sorted_order(Seq::new(cs.len(), |i: int| candidate_key(cs[i])), cs.len() as int)),
    )
}

/// Review groups numbered in order.
pub open spec fn numbered_reviews(s: Seq<ReviewModel>) -> Seq<ReviewModel> {
    Seq::new(
        s.len(),
        |i: int|
            ReviewModel {
                id: next_id("review"@, (i + 1) as nat),
                account_hash: s[i].account_hash,
                credential_hash: s[i].credential_hash,
                reason: s[i].reason,
                service_summary: s[i].service_summary,
                items: s[i].items,
            },
    )
}

/// Review groups sorted by service summary, then first item index, and
/// numbered in that order.
pub open spec fn sorted_reviews(gs: Seq<ReviewModel>) -> Seq<ReviewModel> {
    numbered_reviews(
        arrange(gs, sorted_order(Seq::new(gs.len(), |i: int| review_key(gs[i])), gs.len() as int)),
    )
}

/// Conflicts numbered in order.
pub open spec fn numbered_conflicts(s: Seq<ConflictModel>) -> Seq<ConflictModel> {
    Seq::new(
        s.len(),
        |i: int|
            ConflictModel {
                id: next_id("conflict"@, (i + 1) as nat),
                account_hash: s[i].account_hash,
                service: s[i].service,
                reason: s[i].reason,
                variants: s[i].variants,
            },
    )
}

/// Conflicts sorted by service, then account hash, and numbered in that
/// order.
pub open spec fn sorted_conflicts(cs: Seq<ConflictModel>) -> Seq<ConflictModel> {
    numbered_conflicts(
        arrange(cs, sorted_order(Seq::new(cs.len(), |i: int| conflict_key(cs[i])), cs.len() as int)),
    )
}

/// Number of groups of more than one entry.
pub open spec fn shared_groups(gs: Seq<Group>) -> nat
    decreases gs.len(),
{
    if gs.len() == 0 {
        0
    } else {
        shared_groups(gs.drop_last()) + if gs.last().members.len() > 1 {
            1nat
        } else {
            0nat
        }
    }
}

/// Number of entries in groups of more than one entry.
pub open spec fn shared_members(gs: Seq<Group>) -> nat
    decreases gs.len(),
{
    if gs.len() == 0 {
        0
    } else {
        shared_members(gs.drop_last()) + if gs.last().members.len() > 1 {
            gs.last().members.len()
        } else {
            0
        }
    }
}

/// Number of items of the candidates.
pub open spec fn candidate_items(cs: Seq<CandidateModel>) -> nat
    decreases cs.len(),
{
    if cs.len() == 0 {
        0
    } else {
        candidate_items(cs.drop_last()) + cs.last().items.len()
    }
}

/// `analyze_merge_candidates`.
pub open spec fn analysis(value: Json, include_review_groups: bool) -> AnalysisModel {
    let (total, logins, recs) = collected(value);
    let gs = group_all(credential_keys(recs), recs.len() as int);
    let found = group_candidates(recs, gs);
    let conflicts = group_conflicts(recs, group_all(account_keys(recs), recs.len() as int));
    let reviews = if include_review_groups {
        sorted_reviews(group_reviews(recs, gs))
    } else {
        Seq::empty()
    };
    AnalysisModel {
        summary: SummaryModel {
            total_items: total,
            login_items: logins,
            login_items_with_username_password: recs.len(),
            duplicate_credential_groups: shared_groups(gs),
            duplicate_credential_items: shared_members(gs),
            high_confidence_merge_groups: found.len(),
            high_confidence_merge_items: candidate_items(found),
            password_conflict_groups: conflicts.len(),
            review_groups: reviews.len(),
        },
        candidates: sorted_candidates(found),
        conflicts: sorted_conflicts(conflicts),
        reviews,
    }
}

// ---------------------------------------------------------------------------
// Counting
pub proof fn lemma_candidate_items_concat(a: Seq<CandidateModel>, b: Seq<CandidateModel>)
    ensures
        candidate_items(a + b) == candidate_items(a) + candidate_items(b),
    decreases b.len(),
{
    if b.len() > 0 {
        lemma_candidate_items_concat(a, b.drop_last());
        assert((a + b).drop_last() =~= a + b.drop_last());
    } else {
        assert(a + b =~= a);
    }
}

pub proof fn lemma_component_candidates_items(recs: Seq<RecordModel>, cs: Seq<ComponentModel>)
    requires
        forall|c: int| 0 <= c < cs.len() ==> #[trigger] cs[c].indexes.len() <= usize::MAX,
    ensures
        candidate_items(component_candidates(recs, cs)) == shared_total(cs),
    decreases cs.len(),
{
    if cs.len() > 0 {
        lemma_component_candidates_items(recs, cs.drop_last());
        let c = cs.last();
        if c.indexes.len() > 1 {
            let grs = sort_records(selected(recs, c.indexes));
            lemma_report_lens(selected(recs, c.indexes));
            lemma_report_lens(grs);
            let init = component_candidates(recs, cs.drop_last());
            assert(init.push(candidate(recs, c)).drop_last() =~= init);
        }
    }
}

proof fn lemma_shared_members(gs: Seq<Group>, k: int)
    requires
        0 <= k <= gs.len(),
    ensures
        shared_members(gs.take(k)) <= total_members(gs.take(k)),
        total_members(gs.take(k)) <= total_members(gs),
        shared_groups(gs.take(k)) <= k,
    decreases gs.len(),
{
    if k < gs.len() {
        lemma_shared_members(gs.drop_last(), k);
        assert(gs.drop_last().take(k) =~= gs.take(k));
    } else {
        assert(gs.take(k) =~= gs);
        if gs.len() > 0 {
            lemma_shared_members(gs.drop_last(), k - 1);
            assert(gs.drop_last().take(k - 1) =~= gs.drop_last());
        }
    }
}

// ---------------------------------------------------------------------------
// Every reported group holds more than one item
proof fn lemma_component_candidates_several(recs: Seq<RecordModel>, cs: Seq<ComponentModel>)
    requires
        forall|c: int| 0 <= c < cs.len() ==> #[trigger] cs[c].indexes.len() <= usize::MAX,
    ensures
        forall|i: int|
            0 <= i < component_candidates(recs, cs).len() ==> #[trigger] component_candidates(recs, cs)[i].items.len()
                > 1,
    decreases cs.len(),
{
    if cs.len() > 0 {
        lemma_component_candidates_several(recs, cs.drop_last());
        let init = component_candidates(recs, cs.drop_last());
        let out = component_candidates(recs, cs);
        let c = cs.last();
        if c.indexes.len() > 1 {
            lemma_report_lens(selected(recs, c.indexes));
            lemma_report_lens(sort_records(selected(recs, c.indexes)));
        }
        assert forall|i: int| 0 <= i < out.len() implies #[trigger] out[i].items.len() > 1 by {
            if i < init.len() {
                assert(out[i] == init[i]);
            }
        }
    }
}

proof fn lemma_components_small(recs: Seq<RecordModel>, members: Seq<usize>)
    requires
        members.len() <= usize::MAX,
    ensures
        forall|c: int|
            0 <= c < related_components(recs, members).len() ==> #[trigger] related_components(
                recs,
                members,
            )[c].indexes.len() <= usize::MAX,
{
    lemma_components_partition(recs, members);
    lemma_comp_total_each(related_components(recs, members));
}

pub proof fn lemma_group_candidates_several(recs: Seq<RecordModel>, gs: Seq<Group>)
    requires
        forall|g: int| 0 <= g < gs.len() ==> #[trigger] gs[g].members.len() <= usize::MAX,
    ensures
        forall|i: int|
            0 <= i < group_candidates(recs, gs).len() ==> #[trigger] group_candidates(recs, gs)[i].items.len() > 1,
    decreases gs.len(),
{
    if gs.len() > 0 {
        lemma_group_candidates_several(recs, gs.drop_last());
        let init = group_candidates(recs, gs.drop_last());
        let out = group_candidates(recs, gs);
        let g = gs.last();
        if g.members.len() > 1 {
            let cs = related_components(recs, g.members);
            lemma_components_small(recs, g.members);
            lemma_component_candidates_several(recs, cs);
            let more = component_candidates(recs, cs);
            assert forall|i: int| 0 <= i < out.len() implies #[trigger] out[i].items.len() > 1 by {
                if i < init.len() {
                    assert(out[i] == init[i]);
                } else {
                    assert(out[i] == more[i - init.len()]);
                }
            }
        } else {
            assert forall|i: int| 0 <= i < out.len() implies #[trigger] out[i].items.len() > 1 by {
                assert(out[i] == init[i]);
            }
        }
    }
}

proof fn lemma_group_reviews_several(recs: Seq<RecordModel>, gs: Seq<Group>)
    requires
        forall|g: int| 0 <= g < gs.len() ==> #[trigger] gs[g].members.len() <= usize::MAX,
    ensures
        forall|i: int| 0 <= i < group_reviews(recs, gs).len() ==> #[trigger] group_reviews(recs, gs)[i].items.len() > 1,
    decreases gs.len(),
{
    if gs.len() > 0 {
        lemma_group_reviews_several(recs, gs.drop_last());
        let init = group_reviews(recs, gs.drop_last());
        let out = group_reviews(recs, gs);
        lemma_report_lens(selected(recs, gs.last().members));
        assert forall|i: int| 0 <= i < out.len() implies #[trigger] out[i].items.len() > 1 by {
            if i < init.len() {
                assert(out[i] == init[i]);
            }
        }
    }
}

proof fn lemma_component_conflicts_several(recs: Seq<RecordModel>, cs: Seq<ComponentModel>)
    ensures
        forall|i: int|
            0 <= i < component_conflicts(recs, cs).len() ==> #[trigger] component_conflicts(recs, cs)[i].variants.len()
                > 1,
    decreases cs.len(),
{
    if cs.len() > 0 {
        lemma_component_conflicts_several(recs, cs.drop_last());
        let init = component_conflicts(recs, cs.drop_last());
        let out = component_conflicts(recs, cs);
        assert forall|i: int| 0 <= i < out.len() implies #[trigger] out[i].variants.len() > 1 by {
            if i < init.len() {
                assert(out[i] == init[i]);
            }
        }
    }
}

proof fn lemma_group_conflicts_several(recs: Seq<RecordModel>, gs: Seq<Group>)
    ensures
        forall|i: int|
            0 <= i < group_conflicts(recs, gs).len() ==> #[trigger] group_conflicts(recs, gs)[i].variants.len() > 1,
    decreases gs.len(),
{
    if gs.len() > 0 {
        lemma_group_conflicts_several(recs, gs.drop_last());
        let init = group_conflicts(recs, gs.drop_last());
        let out = group_conflicts(recs, gs);
        if gs.last().members.len() > 1 {
            let cs = related_components(recs, gs.last().members);
            lemma_component_conflicts_several(recs, cs);
            let more = component_conflicts(recs, cs);
            assert forall|i: int| 0 <= i < out.len() implies #[trigger] out[i].variants.len() > 1 by {
                if i < init.len() {
                    assert(out[i] == init[i]);
                } else {
                    assert(out[i] == more[i - init.len()]);
                }
            }
        }
    }
}

/// Sorting and numbering keeps the groups and lists them in key order.
proof fn lemma_sorted_candidates(fm: Seq<CandidateModel>)
    requires
        fm.len() <= usize::MAX,
        forall|i: int| 0 <= i < fm.len() ==> #[trigger] fm[i].items.len() > 1,
    ensures
        sorted_candidates(fm).len() == fm.len(),
        forall|i: int| 0 <= i < sorted_candidates(fm).len() ==> #[trigger] sorted_candidates(fm)[i].items.len() > 1,
        forall|i: int, j: int|
            0 <= i < j < sorted_candidates(fm).len() ==> !sort_key_lt(
                candidate_key(#[trigger] sorted_candidates(fm)[j]),
                candidate_key(#[trigger] sorted_candidates(fm)[i]),
            ),
{
    let keys = Seq::new(fm.len(), |i: int| candidate_key(fm[i]));
    let o = sorted_order(keys, fm.len() as int);
    lemma_sorted_order(keys, fm.len() as int);
    lemma_sorted_order_sorted(keys, fm.len() as int);
    let out = sorted_candidates(fm);
    assert forall|i: int| 0 <= i < out.len() implies #[trigger] out[i].items.len() > 1 by {
        assert(out[i].items == fm[o[i] as int].items);
    }
    assert forall|i: int, j: int| 0 <= i < j < out.len() implies !sort_key_lt(
        candidate_key(#[trigger] out[j]),
        candidate_key(#[trigger] out[i]),
    ) by {
        assert(candidate_key(out[i]) == keys[o[i] as int]);
        assert(candidate_key(out[j]) == keys[o[j] as int]);
    }
}

proof fn lemma_sorted_reviews(fm: Seq<ReviewModel>)
    requires
        fm.len() <= usize::MAX,
        forall|i: int| 0 <= i < fm.len() ==> #[trigger] fm[i].items.len() > 1,
    ensures
        sorted_reviews(fm).len() == fm.len(),
        forall|i: int| 0 <= i < sorted_reviews(fm).len() ==> #[trigger] sorted_reviews(fm)[i].items.len() > 1,
        forall|i: int, j: int|
            0 <= i < j < sorted_reviews(fm).len() ==> !sort_key_lt(
                review_key(#[trigger] sorted_reviews(fm)[j]),
                review_key(#[trigger] sorted_reviews(fm)[i]),
            ),
{
    let keys = Seq::new(fm.len(), |i: int| review_key(fm[i]));
    let o = sorted_order(keys, fm.len() as int);
    lemma_sorted_order(keys, fm.len() as int);
    lemma_sorted_order_sorted(keys, fm.len() as int);
    let out = sorted_reviews(fm);
    assert forall|i: int| 0 <= i < out.len() implies #[trigger] out[i].items.len() > 1 by {
        assert(out[i].items == fm[o[i] as int].items);
    }
    assert forall|i: int, j: int| 0 <= i < j < out.len() implies !sort_key_lt(
        review_key(#[trigger] out[j]),
        review_key(#[trigger] out[i]),
    ) by {
        assert(review_key(out[i]) == keys[o[i] as int]);
        assert(review_key(out[j]) == keys[o[j] as int]);
    }
}

proof fn lemma_sorted_conflicts(fm: Seq<ConflictModel>)
    requires
        fm.len() <= usize::MAX,
        forall|i: int| 0 <= i < fm.len() ==> #[trigger] fm[i].variants.len() > 1,
    ensures
        sorted_conflicts(fm).len() == fm.len(),
        forall|i: int| 0 <= i < sorted_conflicts(fm).len() ==> #[trigger] sorted_conflicts(fm)[i].variants.len() > 1,
        forall|i: int, j: int|
            0 <= i < j < sorted_conflicts(fm).len() ==> !sort_key_lt(
                conflict_key(#[trigger] sorted_conflicts(fm)[j]),
                conflict_key(#[trigger] sorted_conflicts(fm)[i]),
            ),
{
    let keys = Seq::new(fm.len(), |i: int| conflict_key(fm[i]));
    let o = sorted_order(keys, fm.len() as int);
    lemma_sorted_order(keys, fm.len() as int);
    lemma_sorted_order_sorted(keys, fm.len() as int);
    let out = sorted_conflicts(fm);
    assert forall|i: int| 0 <= i < out.len() implies #[trigger] out[i].variants.len() > 1 by {
        assert(out[i].variants == fm[o[i] as int].variants);
    }
    assert forall|i: int, j: int| 0 <= i < j < out.len() implies !sort_key_lt(
        conflict_key(#[trigger] out[j]),
        conflict_key(#[trigger] out[i]),
    ) by {
        assert(conflict_key(out[i]) == keys[o[i] as int]);
        assert(conflict_key(out[j]) == keys[o[j] as int]);
    }
}

proof fn lemma_listed_groups(
    recs: Seq<RecordModel>,
    found: Seq<CandidateModel>,
    reviews: Seq<ReviewModel>,
    conflicts: Seq<ConflictModel>,
    with_reviews: bool,
)
    requires
        recs.len() <= usize::MAX,
        found.len() <= usize::MAX,
        reviews.len() <= usize::MAX,
        conflicts.len() <= usize::MAX,
        found == group_candidates(recs, group_all(credential_keys(recs), recs.len() as int)),
        with_reviews ==> reviews == group_reviews(recs, group_all(credential_keys(recs), recs.len() as int)),
        conflicts == group_conflicts(recs, group_all(account_keys(recs), recs.len() as int)),
    ensures
        forall|i: int| 0 <= i < sorted_candidates(found).len() ==> #[trigger] sorted_candidates(found)[i].items.len() > 1,
        forall|i: int, j: int|
            0 <= i < j < sorted_candidates(found).len() ==> !sort_key_lt(
                candidate_key(#[trigger] sorted_candidates(found)[j]),
                candidate_key(#[trigger] sorted_candidates(found)[i]),
            ),
        with_reviews ==> forall|i: int| 0 <= i < sorted_reviews(reviews).len() ==> #[trigger] sorted_reviews(reviews)[i].items.len() > 1,
        with_reviews ==> forall|i: int, j: int|
            0 <= i < j < sorted_reviews(reviews).len() ==> !sort_key_lt(
                review_key(#[trigger] sorted_reviews(reviews)[j]),
                review_key(#[trigger] sorted_reviews(reviews)[i]),
            ),
        forall|i: int| 0 <= i < sorted_conflicts(conflicts).len() ==> #[trigger] sorted_conflicts(conflicts)[i].variants.len() > 1,
        forall|i: int, j: int|
            0 <= i < j < sorted_conflicts(conflicts).len() ==> !sort_key_lt(
                conflict_key(#[trigger] sorted_conflicts(conflicts)[j]),
                conflict_key(#[trigger] sorted_conflicts(conflicts)[i]),
            ),
{
    let n = recs.len() as int;
    let gs = group_all(credential_keys(recs), n);
    let ags = group_all(account_keys(recs), n);
    lemma_group_all(credential_keys(recs), n);
    lemma_total_members_each(gs);
    lemma_group_candidates_several(recs, gs);
    lemma_group_conflicts_several(recs, ags);
    lemma_sorted_candidates(found);
    lemma_sorted_conflicts(conflicts);
    if with_reviews {
        lemma_group_reviews_several(recs, gs);
        lemma_sorted_reviews(reviews);
    }
}

proof fn lemma_candidate_items_insert(cs: Seq<CandidateModel>, p: int, c: CandidateModel)
    requires
        0 <= p <= cs.len(),
    ensures
        candidate_items(cs.insert(p, c)) == candidate_items(cs) + c.items.len(),
    decreases cs.len(),
{
    if p == cs.len() {
        assert(cs.insert(p, c).drop_last() =~= cs);
    } else {
        lemma_candidate_items_insert(cs.drop_last(), p, c);
        assert(cs.insert(p, c).drop_last() =~= cs.drop_last().insert(p, c));
    }
}

proof fn lemma_candidate_items_arranged(cs: Seq<CandidateModel>, n: int)
    requires
        0 <= n <= cs.len(),
        n <= usize::MAX + 1,
    ensures
        candidate_items(
            arrange(cs, sorted_order(Seq::new(cs.len(), |i: int| candidate_key(cs[i])), n)),
        ) == candidate_items(cs.take(n)),
    decreases n,
{
    let keys = Seq::new(cs.len(), |i: int| candidate_key(cs[i]));
    if n == 0 {
        assert(arrange(cs, sorted_order(keys, 0)) =~= Seq::<CandidateModel>::empty());
        assert(cs.take(0) =~= Seq::<CandidateModel>::empty());
    } else {
        lemma_candidate_items_arranged(cs, n - 1);
        let o = sorted_order(keys, n - 1);
        lemma_sorted_order(keys, n - 1);
        lemma_sorted_order(keys, n);
        let p = place_from(o, keys, keys[n - 1], 0);
        lemma_place_from_bounds(o, keys, keys[n - 1], 0);
        let before = arrange(cs, o);
        assert(arrange(cs, o.insert(p, (n - 1) as usize)) =~= before.insert(p, cs[n - 1]));
        lemma_candidate_items_insert(before, p, cs[n - 1]);
        assert(cs.take(n).drop_last() =~= cs.take(n - 1));
    }
}

proof fn lemma_numbered_items(s: Seq<CandidateModel>)
    ensures
        candidate_items(numbered_candidates(s)) == candidate_items(s),
    decreases s.len(),
{
    if s.len() > 0 {
        lemma_numbered_items(s.drop_last());
        assert(numbered_candidates(s).drop_last() =~= numbered_candidates(s.drop_last()));
    }
}

/// Sorting the candidates keeps their number of items.
proof fn lemma_sorted_candidate_items(cs: Seq<CandidateModel>)
    requires
        cs.len() <= usize::MAX,
    ensures
        candidate_items(sorted_candidates(cs)) == candidate_items(cs),
{
    lemma_candidate_items_arranged(cs, cs.len() as int);
    assert(cs.take(cs.len() as int) =~= cs);
    lemma_numbered_items(
        arrange(cs, sorted_order(Seq::new(cs.len(), |i: int| candidate_key(cs[i])), cs.len() as int)),
    );
}

proof fn lemma_component_candidate_count(recs: Seq<RecordModel>, cs: Seq<ComponentModel>)
    ensures
        component_candidates(recs, cs).len() <= comp_total(cs),
    decreases cs.len(),
{
    if cs.len() > 0 {
        lemma_component_candidate_count(recs, cs.drop_last());
    }
}

/// There are no more candidates than records in the groups.
pub proof fn lemma_candidate_count(recs: Seq<RecordModel>, gs: Seq<Group>)
    requires
        forall|g: int| 0 <= g < gs.len() ==> #[trigger] gs[g].members.len() <= usize::MAX,
    ensures
        group_candidates(recs, gs).len() <= total_members(gs),
    decreases gs.len(),
{
    if gs.len() > 0 {
        let init_gs = gs.drop_last();
        assert forall|g: int| 0 <= g < init_gs.len() implies #[trigger] init_gs[g].members.len() <= usize::MAX by {
            assert(init_gs[g] == gs[g]);
        }
        lemma_candidate_count(recs, init_gs);
        let g = gs.last();
        if g.members.len() > 1 {
            let cs = related_components(recs, g.members);
            lemma_components_partition(recs, g.members);
            lemma_component_candidate_count(recs, cs);
        }
    }
}

// ---------------------------------------------------------------------------
// Executable
pub fn next_id_exec(prefix: &str, n: usize) -> (r: String)
    ensures
        r@ == next_id(prefix@, n as nat),
{
    let mut r = owned(prefix);
    push_str(&mut r, "-");
    let digits = fmt_zero_padded(n, 3);
    push_str(&mut r, digits.as_str());
    r
}

fn make_candidate(records: &Vec<LoginRecord>, c: &Component) -> (r: MergeCandidate)
    requires
        c.indexes@.len() > 1,
        forall|j: int| 0 <= j < c.indexes@.len() ==> #[trigger] c.indexes@[j] < records@.len(),
    ensures
        r.model() == candidate(record_models_of(records@), c.model()),
{
    let sorted = sort_selection(records, &c.indexes);
    let first = &records[sorted[0]];
    MergeCandidate {
        id: String::new(),
        account_hash: first.account_hash.clone(),
        credential_hash: first.credential_hash.clone(),
        service: service_summary_exec(records, &sorted),
        reason: summarize_reasons_exec(c.reasons),
        items: report_items_exec(records, &sorted),
    }
}

fn make_review(records: &Vec<LoginRecord>, members: &Vec<usize>) -> (r: ReviewGroup)
    requires
        members@.len() > 0,
        forall|j: int| 0 <= j < members@.len() ==> #[trigger] members@[j] < records@.len(),
    ensures
        r.model() == review_of(record_models_of(records@), members@),
{
    let first = &records[members[0]];
    ReviewGroup {
        id: String::new(),
        account_hash: first.account_hash.clone(),
        credential_hash: first.credential_hash.clone(),
        reason: owned("same account/password appears in services that were not confidently related"),
        service_summary: service_summary_exec(records, members),
        items: report_items_exec(records, members),
    }
}

fn make_conflict(records: &Vec<LoginRecord>, c: &Component) -> (r: Option<PasswordConflict>)
    requires
        c.indexes@.len() > 1,
        forall|j: int| 0 <= j < c.indexes@.len() ==> #[trigger] c.indexes@[j] < records@.len(),
    ensures
        match r {
            Some(x) => conflict_of(record_models_of(records@), c.model()) == Some(x.model()),
            None => conflict_of(record_models_of(records@), c.model()) is None,
        },
{
    let ghost recs = record_models_of(records@);
    let ghost idx = c.indexes@;
    let n = c.indexes.len();
    let mut keys: Vec<Vec<String>> = Vec::new();
    let mut i: usize = 0;
    while i < n
        invariant
            n == idx.len(),
            idx == c.indexes@,
            recs == record_models_of(records@),
            forall|j: int| 0 <= j < idx.len() ==> #[trigger] idx[j] < records@.len(),
            i <= n,
            keys@.len() == i,
            forall|k: int| 0 <= k < i ==> #[trigger] strs(keys@[k]@) == seq![recs[idx[k] as int].password],
        decreases n - i,
    {
        let mut key: Vec<String> = Vec::new();
        key.push(records[c.indexes[i]].password_token.clone());
        assert(strs(key@) =~= seq![recs[idx[i as int] as int].password]);
        keys.push(key);
        i = i + 1;
    }
    let ghost pkeys = password_keys(recs, idx);
    assert(key_views(keys@) =~= pkeys);
    let (pk, pm) = group_by(&keys);
    let ghost pgs = group_all(pkeys, n as int);
    proof {
        lemma_group_all(pkeys, n as int);
    }
    if pm.len() <= 1 {
        return None;
    }
    let sorted = sort_selection(records, &c.indexes);
    let first = &records[sorted[0]];
    let mut variants: Vec<PasswordVariant> = Vec::new();
    let mut g: usize = 0;
    while g < pm.len()
        invariant
            n == idx.len(),
            idx == c.indexes@,
            recs == record_models_of(records@),
            forall|j: int| 0 <= j < idx.len() ==> #[trigger] idx[j] < records@.len(),
            pk@.len() == pm@.len(),
            group_views(pk@, pm@) == pgs,
            pgs == group_all(pkeys, n as int),
            forall|a: int| 0 <= a < pgs.len() ==> #[trigger] pgs[a].members.len() > 0,
            forall|a: int, m: int|
                0 <= a < pgs.len() && 0 <= m < pgs[a].members.len() ==> #[trigger] pgs[a].members[m] < n,
            g <= pm@.len(),
            variant_models(variants@) == Seq::new(g as nat, |k: int| variant(recs, idx, pgs[k])),
        decreases pm@.len() - g,
    {
        let members = &pm[g];
        assert(members@ == pgs[g as int].members);
        let mut sel: Vec<usize> = Vec::new();
        let mut j: usize = 0;
        while j < members.len()
            invariant
                n == idx.len(),
                idx == c.indexes@,
                forall|t: int| 0 <= t < idx.len() ==> #[trigger] idx[t] < records@.len(),
                forall|m: int| 0 <= m < members@.len() ==> #[trigger] members@[m] < n,
                j <= members@.len(),
                sel@ == Seq::new(j as nat, |t: int| idx[members@[t] as int]),
            decreases members@.len() - j,
        {
            sel.push(c.indexes[members[j]]);
            j = j + 1;
            assert(sel@ =~= Seq::new(j as nat, |t: int| idx[members@[t] as int]));
        }
        let first_variant = &records[sel[0]];
        let v = PasswordVariant {
            password_hash: first_variant.password_hash.clone(),
            items: report_items_exec(records, &sel),
        };
        proof {
            let pg = pgs[g as int];
            assert(sel@ =~= Seq::new(pg.members.len(), |t: int| idx[pg.members[t] as int]));
            assert(selected(recs, sel@)[0] == recs[sel@[0] as int]);
            assert(v.model() == variant(recs, idx, pg));
        }
        let ghost before = variants@;
        assert(variant_models(before).len() == before.len());
        assert(before.len() == g);
        variants.push(v);
        proof {
            assert forall|k: int| 0 <= k < g implies #[trigger] variant_models(variants@)[k] == variant(
                recs,
                idx,
                pgs[k],
            ) by {
                assert(variants@[k] == before[k]);
                assert(variant_models(before)[k] == variant(recs, idx, pgs[k]));
            }
        }
        g = g + 1;
        assert(variant_models(variants@) =~= Seq::new(g as nat, |k: int| variant(recs, idx, pgs[k])));
    }
    Some(
        PasswordConflict {
            id: String::new(),
            account_hash: first.account_hash.clone(),
            service: service_summary_exec(records, &sorted),
            reason: summarize_reasons_exec(c.reasons),
            password_variants: variants,
        },
    )
}

fn first_item_index(items: &Vec<ReportItem>) -> (r: usize)
    ensures
        r == first_index(item_models(items@)),
{
    if items.len() > 0 {
        items[0].item_index
    } else {
        0
    }
}

impl Keyed for MergeCandidate {
    open spec fn sort_key(&self) -> (Seq<char>, Seq<char>, nat) {
        candidate_key(self.model())
    }

    fn key_less(&self, other: &Self) -> (r: bool) {
        if text_lt(self.service.as_str(), other.service.as_str()) {
            true
        } else if !str_is(self.service.as_str(), other.service.as_str()) {
            false
        } else {
            first_item_index(&self.items) < first_item_index(&other.items)
        }
    }
}

impl Keyed for ReviewGroup {
    open spec fn sort_key(&self) -> (Seq<char>, Seq<char>, nat) {
        review_key(self.model())
    }

    fn key_less(&self, other: &Self) -> (r: bool) {
        if text_lt(self.service_summary.as_str(), other.service_summary.as_str()) {
            true
        } else if !str_is(self.service_summary.as_str(), other.service_summary.as_str()) {
            false
        } else {
            first_item_index(&self.items) < first_item_index(&other.items)
        }
    }
}

impl Keyed for PasswordConflict {
    open spec fn sort_key(&self) -> (Seq<char>, Seq<char>, nat) {
        conflict_key(self.model())
    }

    fn key_less(&self, other: &Self) -> (r: bool) {
        if text_lt(self.service.as_str(), other.service.as_str()) {
            true
        } else if !str_is(self.service.as_str(), other.service.as_str()) {
            false
        } else {
            text_lt(self.account_hash.as_str(), other.account_hash.as_str())
        }
    }
}

/// Sorts the candidates and numbers them in order.
fn order_candidates(v: &mut Vec<MergeCandidate>)
    ensures
        candidate_models(final(v)@) == sorted_candidates(candidate_models(old(v)@)),
{
    let ghost ms = candidate_models(v@);
    let ghost o = sorted_order(keys_of(v@), v@.len() as int);
    assert(keys_of(v@) =~= Seq::new(ms.len(), |i: int| candidate_key(ms[i])));
    let n0 = v.len();
    proof {
        lemma_sorted_order(keys_of(v@), n0 as int);
    }
    stable_sort(v);
    assert(candidate_models(v@) =~= arrange(ms, o));
    let ghost s = candidate_models(v@);
    let n = v.len();
    let mut i: usize = 0;
    while i < n
        invariant
            n == v@.len() == s.len(),
            i <= n,
            forall|k: int| 0 <= k < i ==> #[trigger] candidate_models(v@)[k] == numbered_candidates(s)[k],
            forall|k: int| i <= k < n ==> #[trigger] candidate_models(v@)[k] == s[k],
        decreases n - i,
    {
        let ghost before = v@;
        let mut c = v.remove(i);
        c.id = next_id_exec("merge", i + 1);
        let ghost cm = c.model();
        v.insert(i, c);
        proof {
            assert(v@ =~= before.update(i as int, v@[i as int]));
            assert(candidate_models(before)[i as int] == s[i as int]);
            assert(cm == numbered_candidates(s)[i as int]);
            assert forall|k: int| 0 <= k < n && k != i implies #[trigger] candidate_models(v@)[k] == candidate_models(before)[k] by {
                assert(v@[k] == before[k]);
            }
        }
        i = i + 1;
    }
    assert(candidate_models(v@) =~= numbered_candidates(s));
}

/// Sorts the review groups and numbers them in order.
fn order_reviews(v: &mut Vec<ReviewGroup>)
    ensures
        review_models(final(v)@) == sorted_reviews(review_models(old(v)@)),
{
    let ghost ms = review_models(v@);
    let ghost o = sorted_order(keys_of(v@), v@.len() as int);
    assert(keys_of(v@) =~= Seq::new(ms.len(), |i: int| review_key(ms[i])));
    let n0 = v.len();
    proof {
        lemma_sorted_order(keys_of(v@), n0 as int);
    }
    stable_sort(v);
    assert(review_models(v@) =~= arrange(ms, o));
    let ghost s = review_models(v@);
    let n = v.len();
    let mut i: usize = 0;
    while i < n
        invariant
            n == v@.len() == s.len(),
            i <= n,
            forall|k: int| 0 <= k < i ==> #[trigger] review_models(v@)[k] == numbered_reviews(s)[k],
            forall|k: int| i <= k < n ==> #[trigger] review_models(v@)[k] == s[k],
        decreases n - i,
    {
        let ghost before = v@;
        let mut c = v.remove(i);
        c.id = next_id_exec("review", i + 1);
        let ghost cm = c.model();
        v.insert(i, c);
        proof {
            assert(v@ =~= before.update(i as int, v@[i as int]));
            assert(review_models(before)[i as int] == s[i as int]);
            assert(cm == numbered_reviews(s)[i as int]);
            assert forall|k: int| 0 <= k < n && k != i implies #[trigger] review_models(v@)[k] == review_models(before)[k] by {
                assert(v@[k] == before[k]);
            }
        }
        i = i + 1;
    }
    assert(review_models(v@) =~= numbered_reviews(s));
}

/// Sorts the conflicts and numbers them in order.
fn order_conflicts(v: &mut Vec<PasswordConflict>)
    ensures
        conflict_models(final(v)@) == sorted_conflicts(conflict_models(old(v)@)),
{
    let ghost ms = conflict_models(v@);
    let ghost o = sorted_order(keys_of(v@), v@.len() as int);
    assert(keys_of(v@) =~= Seq::new(ms.len(), |i: int| conflict_key(ms[i])));
    let n0 = v.len();
    proof {
        lemma_sorted_order(keys_of(v@), n0 as int);
    }
    stable_sort(v);
    assert(conflict_models(v@) =~= arrange(ms, o));
    let ghost s = conflict_models(v@);
    let n = v.len();
    let mut i: usize = 0;
    while i < n
        invariant
            n == v@.len() == s.len(),
            i <= n,
            forall|k: int| 0 <= k < i ==> #[trigger] conflict_models(v@)[k] == numbered_conflicts(s)[k],
            forall|k: int| i <= k < n ==> #[trigger] conflict_models(v@)[k] == s[k],
        decreases n - i,
    {
        let ghost before = v@;
        let mut c = v.remove(i);
        c.id = next_id_exec("conflict", i + 1);
        let ghost cm = c.model();
        v.insert(i, c);
        proof {
            assert(v@ =~= before.update(i as int, v@[i as int]));
            assert(conflict_models(before)[i as int] == s[i as int]);
            assert(cm == numbered_conflicts(s)[i as int]);
            assert forall|k: int| 0 <= k < n && k != i implies #[trigger] conflict_models(v@)[k] == conflict_models(before)[k] by {
                assert(v@[k] == before[k]);
            }
        }
        i = i + 1;
    }
    assert(conflict_models(v@) =~= numbered_conflicts(s));
}

/// Adds the candidates of the groups of more than one record; returns how
/// many records those groups hold.
fn push_candidates(records: &Vec<LoginRecord>, comps: &Vec<Component>, out: &mut Vec<MergeCandidate>) -> (hc: usize)
    requires
        comp_total(component_models(comps@)) <= usize::MAX,
        forall|c: int, j: int|
            0 <= c < comps@.len() && 0 <= j < comps@[c].indexes@.len() ==> #[trigger] comps@[c].indexes@[j]
                < records@.len(),
    ensures
        candidate_models(final(out)@) == candidate_models(old(out)@) + component_candidates(
            record_models_of(records@),
            component_models(comps@),
        ),
        hc == shared_total(component_models(comps@)),
{
    let ghost recs = record_models_of(records@);
    let ghost cms = component_models(comps@);
    let ghost start = candidate_models(out@);
    let mut hc: usize = 0;
    let mut k: usize = 0;
    proof {
        lemma_shared_total_bound(cms);
        assert(cms.take(0) =~= Seq::<ComponentModel>::empty());
        assert(start + component_candidates(recs, cms.take(0)) =~= start);
    }
    while k < comps.len()
        invariant
            recs == record_models_of(records@),
            cms == component_models(comps@),
            shared_total(cms) <= comp_total(cms) <= usize::MAX,
            forall|c: int, j: int|
                0 <= c < comps@.len() && 0 <= j < comps@[c].indexes@.len() ==> #[trigger] comps@[c].indexes@[j]
                    < records@.len(),
            k <= comps@.len(),
            hc == shared_total(cms.take(k as int)),
            candidate_models(out@) == start + component_candidates(recs, cms.take(k as int)),
        decreases comps@.len() - k,
    {
        proof {
            lemma_comp_total_prefix(cms, k + 1);
            assert(cms.take(k + 1).drop_last() =~= cms.take(k as int));
            assert(cms[k as int] == comps@[k as int].model());
        }
        let c = &comps[k];
        if c.indexes.len() > 1 {
            let cand = make_candidate(records, c);
            let ghost before = candidate_models(out@);
            out.push(cand);
            assert(candidate_models(out@) =~= before.push(cand.model()));
            hc = hc + c.indexes.len();
        }
        k = k + 1;
    }
    assert(cms.take(k as int) =~= cms);
    hc
}

/// Adds the conflicts of the groups of more than one record.
fn push_conflicts(records: &Vec<LoginRecord>, comps: &Vec<Component>, out: &mut Vec<PasswordConflict>)
    requires
        forall|c: int, j: int|
            0 <= c < comps@.len() && 0 <= j < comps@[c].indexes@.len() ==> #[trigger] comps@[c].indexes@[j]
                < records@.len(),
    ensures
        conflict_models(final(out)@) == conflict_models(old(out)@) + component_conflicts(
            record_models_of(records@),
            component_models(comps@),
        ),
{
    let ghost recs = record_models_of(records@);
    let ghost cms = component_models(comps@);
    let ghost start = conflict_models(out@);
    let mut k: usize = 0;
    proof {
        assert(cms.take(0) =~= Seq::<ComponentModel>::empty());
        assert(start + component_conflicts(recs, cms.take(0)) =~= start);
    }
    while k < comps.len()
        invariant
            recs == record_models_of(records@),
            cms == component_models(comps@),
            forall|c: int, j: int|
                0 <= c < comps@.len() && 0 <= j < comps@[c].indexes@.len() ==> #[trigger] comps@[c].indexes@[j]
                    < records@.len(),
            k <= comps@.len(),
            conflict_models(out@) == start + component_conflicts(recs, cms.take(k as int)),
        decreases comps@.len() - k,
    {
        proof {
            assert(cms.take(k + 1).drop_last() =~= cms.take(k as int));
            assert(cms[k as int] == comps@[k as int].model());
        }
        let c = &comps[k];
        if c.indexes.len() > 1 {
            match make_conflict(records, c) {
                Some(conflict) => {
                    let ghost before = conflict_models(out@);
                    out.push(conflict);
                    assert(conflict_models(out@) =~= before.push(conflict.model()));
                },
                None => {},
            }
        }
        k = k + 1;
    }
    assert(cms.take(k as int) =~= cms);
}

/// The candidates and review groups of the credential groups, with the
/// counts of shared groups, of their records, and of candidate items.
fn scan_credential_groups(
    records: &Vec<LoginRecord>,
    ck: &Vec<Vec<String>>,
    cm: &Vec<Vec<usize>>,
    include_review_groups: bool,
) -> (r: (Vec<MergeCandidate>, Vec<ReviewGroup>, usize, usize, usize))
    requires
        ck@.len() == cm@.len(),
        group_views(ck@, cm@) == group_all(
            credential_keys(record_models_of(records@)),
            records@.len() as int,
        ),
    ensures
        ({
            let recs = record_models_of(records@);
            let gs = group_all(credential_keys(recs), records@.len() as int);
            &&& candidate_models(r.0@) == group_candidates(recs, gs)
            &&& review_models(r.1@) == (if include_review_groups {
                group_reviews(recs, gs)
            } else {
                Seq::empty()
            })
            &&& r.2 == shared_groups(gs)
            &&& r.3 == shared_members(gs)
            &&& r.4 == candidate_items(group_candidates(recs, gs))
        }),
{
    let ghost recs = record_models_of(records@);
    let ghost gs = group_all(credential_keys(recs), records@.len() as int);
    let n = records.len();
    proof {
        lemma_group_all(credential_keys(recs), n as int);
    }
    let mut found: Vec<MergeCandidate> = Vec::new();
    let mut reviews: Vec<ReviewGroup> = Vec::new();
    let mut dup_groups: usize = 0;
    let mut dup_items: usize = 0;
    let mut hc_items: usize = 0;
    let mut g: usize = 0;
    proof {
        assert(gs.take(0) =~= Seq::<Group>::empty());
        assert(candidate_models(found@) =~= Seq::<CandidateModel>::empty());
        assert(review_models(reviews@) =~= Seq::<ReviewModel>::empty());
    }
    while g < cm.len()
        invariant
            n == records@.len(),
            recs == record_models_of(records@),
            gs == group_all(credential_keys(recs), n as int),
            ck@.len() == cm@.len(),
            group_views(ck@, cm@) == gs,
            total_members(gs) == n,
            forall|a: int| 0 <= a < gs.len() ==> #[trigger] gs[a].members.len() > 0,
            forall|a: int, m: int| 0 <= a < gs.len() && 0 <= m < gs[a].members.len() ==> #[trigger] gs[a].members[m] < n,
            g <= cm@.len(),
            candidate_models(found@) == group_candidates(recs, gs.take(g as int)),
            review_models(reviews@) == (if include_review_groups {
                group_reviews(recs, gs.take(g as int))
            } else {
                Seq::empty()
            }),
            dup_groups == shared_groups(gs.take(g as int)),
            dup_items == shared_members(gs.take(g as int)),
            hc_items == candidate_items(group_candidates(recs, gs.take(g as int))),
            hc_items <= dup_items,
        decreases cm@.len() - g,
    {
        let ghost prev = gs.take(g as int);
        let ghost cur = gs.take(g + 1);
        proof {
            assert(cur.drop_last() =~= prev);
            assert(cur.last() == gs[g as int]);
            lemma_shared_members(gs, g + 1);
        }
        let members = &cm[g];
        assert(members@ == gs[g as int].members);
        if members.len() > 1 {
            dup_groups = dup_groups + 1;
            dup_items = dup_items + members.len();
            proof {
                assert forall|j: int| 0 <= j < members@.len() implies #[trigger] members@[j] < records@.len() by {
                    assert(members@[j] == gs[g as int].members[j]);
                }
            }
            let comps = related_components_exec(members, records);
            let ghost cms = component_models(comps@);
            proof {
                lemma_components_partition(recs, members@);
                lemma_components_bounded(recs, members@, n as int);
                lemma_comp_total_each(cms);
                lemma_shared_total_bound(cms);
                assert forall|c: int, j: int| 0 <= c < comps@.len() && 0 <= j < comps@[c].indexes@.len() implies
                    #[trigger] comps@[c].indexes@[j] < records@.len() by {
                    assert(cms[c].indexes == comps@[c].indexes@);
                }
                lemma_component_candidates_items(recs, cms);
                lemma_candidate_items_concat(group_candidates(recs, prev), component_candidates(recs, cms));
            }
            let hc = push_candidates(records, &comps, &mut found);
            hc_items = hc_items + hc;
            if include_review_groups && hc != members.len() {
                let review = make_review(records, members);
                let ghost before = review_models(reviews@);
                reviews.push(review);
                assert(review_models(reviews@) =~= before.push(review.model()));
            }
        }
        g = g + 1;
    }
    assert(gs.take(g as int) =~= gs);
    (found, reviews, dup_groups, dup_items, hc_items)
}

/// The conflicts of the account groups.
fn scan_account_groups(records: &Vec<LoginRecord>, ak: &Vec<Vec<String>>, am: &Vec<Vec<usize>>) -> (r: Vec<
    PasswordConflict,
>)
    requires
        ak@.len() == am@.len(),
        group_views(ak@, am@) == group_all(account_keys(record_models_of(records@)), records@.len() as int),
    ensures
        conflict_models(r@) == group_conflicts(
            record_models_of(records@),
            group_all(account_keys(record_models_of(records@)), records@.len() as int),
        ),
{
    let ghost recs = record_models_of(records@);
    let ghost gs = group_all(account_keys(recs), records@.len() as int);
    let n = records.len();
    proof {
        lemma_group_all(account_keys(recs), n as int);
    }
    let mut conflicts: Vec<PasswordConflict> = Vec::new();
    let mut g: usize = 0;
    proof {
        assert(gs.take(0) =~= Seq::<Group>::empty());
        assert(conflict_models(conflicts@) =~= Seq::<ConflictModel>::empty());
    }
    while g < am.len()
        invariant
            n == records@.len(),
            recs == record_models_of(records@),
            gs == group_all(account_keys(recs), n as int),
            ak@.len() == am@.len(),
            group_views(ak@, am@) == gs,
            forall|a: int, m: int| 0 <= a < gs.len() && 0 <= m < gs[a].members.len() ==> #[trigger] gs[a].members[m] < n,
            g <= am@.len(),
            conflict_models(conflicts@) == group_conflicts(recs, gs.take(g as int)),
        decreases am@.len() - g,
    {
        let ghost prev = gs.take(g as int);
        proof {
            assert(gs.take(g + 1).drop_last() =~= prev);
            assert(gs.take(g + 1).last() == gs[g as int]);
        }
        let members = &am[g];
        assert(members@ == gs[g as int].members);
        if members.len() > 1 {
            proof {
                assert forall|j: int| 0 <= j < members@.len() implies #[trigger] members@[j] < records@.len() by {
                    assert(members@[j] == gs[g as int].members[j]);
                }
            }
            let comps = related_components_exec(members, records);
            let ghost cms = component_models(comps@);
            proof {
                lemma_components_bounded(recs, members@, n as int);
                assert forall|c: int, j: int| 0 <= c < comps@.len() && 0 <= j < comps@[c].indexes@.len() implies
                    #[trigger] comps@[c].indexes@[j] < records@.len() by {
                    assert(cms[c].indexes == comps@[c].indexes@);
                }
            }
            push_conflicts(records, &comps, &mut conflicts);
        }
        g = g + 1;
    }
    assert(gs.take(g as int) =~= gs);
    conflicts
}

/// `analyze_merge_candidates`: reads the login items of an export and
/// reports the groups of items that can be merged, the groups with
/// conflicting passwords and, when asked, the groups that need review.
pub fn analyze_merge_candidates(value: &JsonValue, options: AnalyzeOptions) -> (r: MergeAnalysis)
    ensures
        r.model() == analysis(value.model(), options.include_review_groups),
        // Every merge candidate and review group holds more than one item, and
        // every conflict more than one password.
        forall|i: int|
            0 <= i < r.model().candidates.len() ==> #[trigger] r.model().candidates[i].items.len() > 1,
        forall|i: int| 0 <= i < r.model().reviews.len() ==> #[trigger] r.model().reviews[i].items.len() > 1,
        forall|i: int|
            0 <= i < r.model().conflicts.len() ==> #[trigger] r.model().conflicts[i].variants.len() > 1,
        // The summary's item count is that of the listed candidates.
        r.summary.high_confidence_merge_items == candidate_items(r.model().candidates),
        // Each list is in order of its key.
        forall|i: int, j: int|
            0 <= i < j < r.model().candidates.len() ==> !sort_key_lt(
                candidate_key(#[trigger] r.model().candidates[j]),
                candidate_key(#[trigger] r.model().candidates[i]),
            ),
        forall|i: int, j: int|
            0 <= i < j < r.model().reviews.len() ==> !sort_key_lt(
                review_key(#[trigger] r.model().reviews[j]),
                review_key(#[trigger] r.model().reviews[i]),
            ),
        forall|i: int, j: int|
            0 <= i < j < r.model().conflicts.len() ==> !sort_key_lt(
                conflict_key(#[trigger] r.model().conflicts[j]),
                conflict_key(#[trigger] r.model().conflicts[i]),
            ),
{
    let (total_items, login_items, records) = collect_login_records(value);
    let ghost recs = record_models_of(records@);
    assert(recs =~= record_models(records@));
    let n = records.len();
    let mut cred: Vec<Vec<String>> = Vec::new();
    let mut acct: Vec<Vec<String>> = Vec::new();
    let mut i: usize = 0;
    while i < n
        invariant
            n == records@.len(),
            recs == record_models_of(records@),
            i <= n,
            cred@.len() == i,
            acct@.len() == i,
            forall|k: int| 0 <= k < i ==> #[trigger] strs(cred@[k]@) == seq![recs[k].username, recs[k].password],
            forall|k: int| 0 <= k < i ==> #[trigger] strs(acct@[k]@) == seq![recs[k].username],
        decreases n - i,
    {
        let r = &records[i];
        let mut c: Vec<String> = Vec::new();
        c.push(r.username_token.clone());
        c.push(r.password_token.clone());
        assert(strs(c@) =~= seq![recs[i as int].username, recs[i as int].password]);
        cred.push(c);
        let mut a: Vec<String> = Vec::new();
        a.push(r.username_token.clone());
        assert(strs(a@) =~= seq![recs[i as int].username]);
        acct.push(a);
        i = i + 1;
    }
    assert(key_views(cred@) =~= credential_keys(recs));
    assert(key_views(acct@) =~= account_keys(recs));
    let (ck, cm) = group_by(&cred);
    let (ak, am) = group_by(&acct);
    let (mut found, mut reviews, dup_groups, dup_items, hc_items) = scan_credential_groups(
        &records,
        &ck,
        &cm,
        options.include_review_groups,
    );
    let mut conflicts = scan_account_groups(&records, &ak, &am);
    let hc_groups = found.len();
    let review_total = reviews.len();
    let conflict_total = conflicts.len();
    proof {
        lemma_listed_groups(recs, candidate_models(found@), review_models(reviews@), conflict_models(conflicts@), options.include_review_groups);
        lemma_sorted_candidate_items(candidate_models(found@));
    }
    order_candidates(&mut found);
    if options.include_review_groups {
        order_reviews(&mut reviews);
    }
    let conflict_count = conflicts.len();
    order_conflicts(&mut conflicts);
    let review_count = reviews.len();
    let summary = AnalysisSummary {
        total_items,
        login_items,
        login_items_with_username_password: n,
        duplicate_credential_groups: dup_groups,
        duplicate_credential_items: dup_items,
        high_confidence_merge_groups: hc_groups,
        high_confidence_merge_items: hc_items,
        password_conflict_groups: conflict_count,
        review_groups: review_count,
    };
    proof {
        if !options.include_review_groups {
            assert(review_models(reviews@) =~= Seq::<ReviewModel>::empty());
        }
    }
    MergeAnalysis {
        summary,
        high_confidence_merge_candidates: found,
        same_account_site_different_passwords: conflicts,
        review_groups: reviews,
    }
}

} // verus!
