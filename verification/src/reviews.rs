//! Review groups: which credential groups the analysis lists for review.
use vstd::prelude::*;

use crate::analyze::{
    analysis, candidate_items, component_candidates, credential_keys, group_reviews,
    lemma_component_candidates_items, review_key, review_of, sorted_reviews, ReviewModel, SummaryModel,
};
use crate::group::{
    group_all, in_some_group, lemma_group_all, lemma_group_all_complete, lemma_group_all_distinct, lemma_group_all_keys,
    lemma_sorted_order, lemma_sorted_order_onto, lemma_total_members_each, sorted_order, Group,
};
use crate::json::Json;
use crate::laws::lemma_group_reviews_count;
use crate::records::{collected, RecordModel};
use crate::relate::{
    lemma_comp_total_each, lemma_components_partition, lemma_shared_total_bound, related_components, shared_total,
};
use crate::report::{lemma_report_lens, selected};

verus! {

/// Review groups are optional and change nothing else: without them the
/// analysis lists none and counts none, and its candidates, its conflicts
/// and its other counts are those of the analysis with them.
pub proof fn law_review_groups_optional(value: Json)
    ensures
        ({
            let without = analysis(value, false);
            let with = analysis(value, true);
            &&& without.reviews.len() == 0
            &&& without.summary == SummaryModel { review_groups: 0, ..with.summary }
            &&& without.candidates == with.candidates
            &&& without.conflicts == with.conflicts
        }),
{
}

/// A credential group with more than one item of which fewer lie in merge
/// candidates than the group holds.
pub open spec fn partly_covered(recs: Seq<RecordModel>, members: Seq<usize>) -> bool {
    &&& members.len() > 1
    &&& candidate_items(component_candidates(recs, related_components(recs, members))) < members.len()
}

/// Number of groups that merge candidates cover only in part.
pub open spec fn partly_covered_count(recs: Seq<RecordModel>, gs: Seq<Group>) -> nat
    decreases gs.len(),
{
    if gs.len() == 0 {
        0
    } else {
        partly_covered_count(recs, gs.drop_last()) + if partly_covered(recs, gs.last().members) {
            1nat
        } else {
            0nat
        }
    }
}

/// Two review groups equal but for their ids.
pub open spec fn same_review(a: ReviewModel, b: ReviewModel) -> bool {
    &&& a.account_hash == b.account_hash
    &&& a.credential_hash == b.credential_hash
    &&& a.reason == b.reason
    &&& a.service_summary == b.service_summary
    &&& a.items == b.items
}

proof fn lemma_partly_covered(recs: Seq<RecordModel>, members: Seq<usize>)
    requires
        members.len() <= usize::MAX,
    ensures
        partly_covered(recs, members) <==> (members.len() > 1 && shared_total(related_components(recs, members))
            != members.len()),
        review_of(recs, members).items.len() == members.len(),
{
    let cs = related_components(recs, members);
    lemma_components_partition(recs, members);
    lemma_shared_total_bound(cs);
    lemma_comp_total_each(cs);
    lemma_component_candidates_items(recs, cs);
    lemma_report_lens(selected(recs, members));
}

/// The credential groups hold the records by username and password.
proof fn lemma_credential_groups(recs: Seq<RecordModel>)
    requires
        recs.len() <= usize::MAX,
    ensures
        ({
            let gs = group_all(credential_keys(recs), recs.len() as int);
            &&& forall|g: int, x: usize|
                0 <= g < gs.len() && x < recs.len() ==> (#[trigger] gs[g].members.contains(x) <==> credential_keys(
                    recs,
                )[x as int] == gs[g].key)
            &&& forall|g: int, h: int| 0 <= g < h < gs.len() ==> #[trigger] gs[g].key != #[trigger] gs[h].key
            &&& forall|g: int| 0 <= g < gs.len() ==> #[trigger] gs[g].members.len() <= usize::MAX
            &&& gs.len() <= recs.len()
        }),
{
    let n = recs.len() as int;
    let keys = credential_keys(recs);
    let gs = group_all(keys, n);
    lemma_group_all(keys, n);
    lemma_group_all_keys(keys, n);
    lemma_group_all_distinct(keys, n);
    lemma_group_all_complete(keys, n);
    lemma_total_members_each(gs);
    assert forall|g: int, x: usize| 0 <= g < gs.len() && x < recs.len() implies (#[trigger] gs[g].members.contains(x)
        <==> keys[x as int] == gs[g].key) by {
        if gs[g].members.contains(x) {
            let m = choose|m: int| 0 <= m < gs[g].members.len() && gs[g].members[m] == x;
            assert(keys[gs[g].members[m] as int] == gs[g].key);
        }
        if keys[x as int] == gs[g].key {
            assert(in_some_group(gs, x));
            let h = choose|h: int| 0 <= h < gs.len() && #[trigger] gs[h].members.contains(x);
            let m = choose|m: int| 0 <= m < gs[h].members.len() && gs[h].members[m] == x;
            assert(keys[gs[h].members[m] as int] == gs[h].key);
            if h < g {
                assert(gs[h].key != gs[g].key);
            } else if g < h {
                assert(gs[g].key != gs[h].key);
            }
        }
    }
}

/// Whether some review group equals `r` but for its id.
pub open spec fn listed(rv: Seq<ReviewModel>, r: ReviewModel) -> bool {
    exists|i: int| 0 <= i < rv.len() && same_review(#[trigger] rv[i], r)
}

/// Whether `r` equals, but for its id, the review group of a credential
/// group of `gs` that merge candidates cover only in part, and lists all the
/// group's items.
pub open spec fn review_of_partly_covered(recs: Seq<RecordModel>, gs: Seq<Group>, r: ReviewModel) -> bool {
    exists|g: int|
        0 <= g < gs.len() && partly_covered(recs, gs[g].members) && same_review(
            r,
            review_of(recs, #[trigger] gs[g].members),
        ) && r.items.len() == gs[g].members.len()
}

/// `review_of`, kept folded while review groups are matched up.
#[verifier::opaque]
spec fn review_at(recs: Seq<RecordModel>, members: Seq<usize>) -> ReviewModel {
    review_of(recs, members)
}

/// `partly_covered`, kept folded while review groups are matched up.
#[verifier::opaque]
spec fn in_part(recs: Seq<RecordModel>, members: Seq<usize>) -> bool {
    partly_covered(recs, members)
}

/// `sorted_reviews`, kept folded while review groups are matched up.
#[verifier::opaque]
spec fn sorted_view(found: Seq<ReviewModel>) -> Seq<ReviewModel> {
    sorted_reviews(found)
}

/// Whether `r` is the review group of one of the groups that merge
/// candidates cover only in part.
spec fn from_part(recs: Seq<RecordModel>, gs: Seq<Group>, r: ReviewModel) -> bool {
    exists|g: int| 0 <= g < gs.len() && in_part(recs, gs[g].members) && r == review_at(recs, #[trigger] gs[g].members)
}

/// Whether `r` equals, but for its id, the review group of a group that
/// merge candidates cover only in part, and lists all its items.
spec fn matched_at(recs: Seq<RecordModel>, gs: Seq<Group>, r: ReviewModel) -> bool {
    exists|g: int|
        0 <= g < gs.len() && in_part(recs, gs[g].members) && same_review(r, review_at(recs, #[trigger] gs[g].members))
            && r.items.len() == gs[g].members.len()
}

proof fn lemma_group_reviews_exact(recs: Seq<RecordModel>, gs: Seq<Group>)
    requires
        forall|g: int| 0 <= g < gs.len() ==> #[trigger] gs[g].members.len() <= usize::MAX,
    ensures
        group_reviews(recs, gs).len() == partly_covered_count(recs, gs),
        forall|g: int|
            0 <= g < gs.len() && #[trigger] in_part(recs, gs[g].members) ==> group_reviews(recs, gs).contains(
                review_at(recs, gs[g].members),
            ),
        forall|i: int| 0 <= i < group_reviews(recs, gs).len() ==> from_part(recs, gs, #[trigger] group_reviews(recs, gs)[i]),
        forall|g: int|
            0 <= g < gs.len() ==> (#[trigger] review_at(recs, gs[g].members)).items.len() == gs[g].members.len(),
    decreases gs.len(),
{
    reveal(review_at);
    reveal(in_part);
    if gs.len() > 0 {
        let init_gs = gs.drop_last();
        let gi = gs.len() - 1;
        assert forall|g: int| 0 <= g < init_gs.len() implies #[trigger] init_gs[g].members.len() <= usize::MAX by {
            assert(init_gs[g] == gs[g]);
        }
        lemma_group_reviews_exact(recs, init_gs);
        let init = group_reviews(recs, init_gs);
        let out = group_reviews(recs, gs);
        let last = gs[gi];
        lemma_partly_covered(recs, last.members);
        assert forall|g: int| 0 <= g < gs.len() && #[trigger] in_part(recs, gs[g].members) implies out.contains(
            review_at(recs, gs[g].members),
        ) by {
            if g < gi {
                assert(init_gs[g] == gs[g]);
                assert(init.contains(review_at(recs, gs[g].members)));
                let i = choose|i: int| 0 <= i < init.len() && init[i] == review_at(recs, gs[g].members);
                assert(out[i] == init[i]);
            } else {
                assert(out[init.len() as int] == review_at(recs, last.members));
            }
        }
        assert forall|i: int| 0 <= i < out.len() implies from_part(recs, gs, #[trigger] out[i]) by {
            if i < init.len() {
                assert(out[i] == init[i]);
                assert(from_part(recs, init_gs, init[i]));
                let g = choose|g: int|
                    0 <= g < init_gs.len() && in_part(recs, init_gs[g].members) && init[i] == review_at(
                        recs,
                        #[trigger] init_gs[g].members,
                    );
                assert(init_gs[g] == gs[g]);
            } else {
                assert(out[i] == review_at(recs, gs[gi].members));
                assert(in_part(recs, gs[gi].members));
            }
        }
        assert forall|g: int| 0 <= g < gs.len() implies (#[trigger] review_at(recs, gs[g].members)).items.len()
            == gs[g].members.len() by {
            if g < gi {
                assert(init_gs[g] == gs[g]);
            }
        }
    }
}

/// Sorting and numbering review groups keeps each of them, but for its id.
proof fn lemma_sorted_same(found: Seq<ReviewModel>)
    requires
        found.len() <= usize::MAX,
    ensures
        sorted_view(found).len() == found.len(),
        forall|j: int| 0 <= j < found.len() ==> listed(sorted_view(found), #[trigger] found[j]),
        forall|c: int|
            0 <= c < sorted_view(found).len() ==> exists|j: int|
                0 <= j < found.len() && same_review(#[trigger] sorted_view(found)[c], found[j]),
{
    reveal(sorted_view);
    let ks = Seq::new(found.len(), |i: int| review_key(found[i]));
    lemma_sorted_order(ks, found.len() as int);
    lemma_sorted_order_onto(ks, found.len() as int);
    let o = sorted_order(ks, found.len() as int);
    let out = sorted_reviews(found);
    assert forall|j: int| 0 <= j < found.len() implies listed(out, #[trigger] found[j]) by {
        assert(o.contains(j as usize));
        let c = choose|c: int| 0 <= c < o.len() && o[c] == j as usize;
        assert(same_review(out[c], found[o[c] as int]));
    }
    assert forall|c: int| 0 <= c < out.len() implies exists|j: int|
        0 <= j < found.len() && same_review(#[trigger] out[c], found[j]) by {
        assert(same_review(out[c], found[o[c] as int]));
    }
}

proof fn lemma_reviews_match(recs: Seq<RecordModel>, gs: Seq<Group>, rv: Seq<ReviewModel>)
    requires
        recs.len() <= usize::MAX,
        gs == group_all(credential_keys(recs), recs.len() as int),
        rv == sorted_view(group_reviews(recs, gs)),
    ensures
        rv.len() == partly_covered_count(recs, gs),
        forall|g: int|
            0 <= g < gs.len() && #[trigger] in_part(recs, gs[g].members) ==> listed(rv, review_at(recs, gs[g].members)),
        forall|c: int| 0 <= c < rv.len() ==> matched_at(recs, gs, #[trigger] rv[c]),
{
    let gs = group_all(credential_keys(recs), recs.len() as int);
    lemma_group_all(credential_keys(recs), recs.len() as int);
    lemma_total_members_each(gs);
    lemma_group_reviews_exact(recs, gs);
    lemma_group_reviews_count(recs, gs);
    let found = group_reviews(recs, gs);
    lemma_sorted_same(found);
    assert forall|g: int| 0 <= g < gs.len() && #[trigger] in_part(recs, gs[g].members) implies listed(
        rv,
        review_at(recs, gs[g].members),
    ) by {
        assert(found.contains(review_at(recs, gs[g].members)));
        let j = choose|j: int| 0 <= j < found.len() && found[j] == review_at(recs, gs[g].members);
        assert(listed(rv, found[j]));
    }
    assert forall|c: int| 0 <= c < rv.len() implies matched_at(recs, gs, #[trigger] rv[c]) by {
        let j = choose|j: int| 0 <= j < found.len() && same_review(#[trigger] rv[c], found[j]);
        assert(from_part(recs, gs, found[j]));
        let g = choose|g: int|
            0 <= g < gs.len() && in_part(recs, gs[g].members) && found[j] == review_at(recs, #[trigger] gs[g].members);
        assert(same_review(rv[c], review_at(recs, gs[g].members)));
        assert(rv[c].items.len() == gs[g].members.len());
    }
    assert(rv.len() == partly_covered_count(recs, gs));
}

/// Review groups are exactly the credential groups that merge candidates
/// cover only in part. The credential groups hold the login records by
/// username and password: a record is in a group exactly when it has the
/// group's username and password, and no two groups have the same ones. For
/// each group of more than one record of which fewer lie in merge
/// candidates, the analysis lists one review group with all the group's
/// items; it lists no other review group.
pub proof fn law_review_groups_partly_covered(value: Json)
    requires
        collected(value).2.len() <= usize::MAX,
    ensures
        ({
            let recs = collected(value).2;
            let gs = group_all(credential_keys(recs), recs.len() as int);
            let a = analysis(value, true);
            &&& forall|g: int, x: usize|
                0 <= g < gs.len() && x < recs.len() ==> (#[trigger] gs[g].members.contains(x) <==> credential_keys(
                    recs,
                )[x as int] == gs[g].key)
            &&& forall|g: int, h: int| 0 <= g < h < gs.len() ==> #[trigger] gs[g].key != #[trigger] gs[h].key
            &&& a.reviews.len() == partly_covered_count(recs, gs)
            &&& forall|g: int|
                0 <= g < gs.len() && #[trigger] partly_covered(recs, gs[g].members) ==> listed(
                    a.reviews,
                    review_of(recs, gs[g].members),
                )
            &&& forall|c: int| 0 <= c < a.reviews.len() ==> review_of_partly_covered(recs, gs, #[trigger] a.reviews[c])
        }),
{
    let recs = collected(value).2;
    let gs = group_all(credential_keys(recs), recs.len() as int);
    lemma_credential_groups(recs);
    let rv = sorted_view(group_reviews(recs, gs));
    lemma_reviews_match(recs, gs, rv);
    assert(analysis(value, true).reviews == rv) by {
        reveal(sorted_view);
    }
    reveal(review_at);
    reveal(in_part);
    assert forall|c: int| 0 <= c < rv.len() implies review_of_partly_covered(recs, gs, #[trigger] rv[c]) by {
        assert(matched_at(recs, gs, rv[c]));
        let g = choose|g: int|
            0 <= g < gs.len() && in_part(recs, gs[g].members) && same_review(
                rv[c],
                review_at(recs, #[trigger] gs[g].members),
            ) && rv[c].items.len() == gs[g].members.len();
        assert(partly_covered(recs, gs[g].members));
    }
    assert forall|g: int|
        0 <= g < gs.len() && #[trigger] partly_covered(recs, gs[g].members) implies listed(
            rv,
            review_of(recs, gs[g].members),
        ) by {
        assert(in_part(recs, gs[g].members));
    }
    assert(rv.len() == partly_covered_count(recs, gs));
}

} // verus!
