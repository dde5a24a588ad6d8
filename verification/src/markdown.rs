//! The analysis as a Markdown report.
use vstd::prelude::*;

use crate::analyze::{
    AnalysisModel, CandidateModel, ConflictModel, MergeAnalysis, MergeCandidate, PasswordConflict,
    PasswordVariant, ReviewGroup, ReviewModel, SummaryModel, VariantModel, candidate_models,
    conflict_models, review_models, variant_models,
};
use crate::report::{item_models, ReportItem, ReportItemModel};
use crate::strset::strs;
use crate::text::{chars_of, decimal, fmt_decimal, join, join_strings, push_char, push_str};

verus! {

// ---------------------------------------------------------------------------
// Escaping
/// A character as it stands in Markdown text: `|` is escaped.
pub open spec fn escape_char(c: char) -> Seq<char> {
    if c == '|' {
        seq!['\\', '|']
    } else {
        seq![c]
    }
}

/// A character as it stands in a table cell: `|` is escaped and a line break
/// becomes a space.
pub open spec fn escape_cell_char(c: char) -> Seq<char> {
    if c == '|' {
        seq!['\\', '|']
    } else if c == '\n' {
        seq![' ']
    } else {
        seq![c]
    }
}

/// `escape_markdown`.
pub open spec fn escape_markdown(s: Seq<char>) -> Seq<char>
    decreases s.len(),
{
    if s.len() == 0 {
        Seq::empty()
    } else {
        escape_markdown(s.drop_last()) + escape_char(s.last())
    }
}

/// `escape_markdown_table`.
pub open spec fn escape_markdown_table(s: Seq<char>) -> Seq<char>
    decreases s.len(),
{
    if s.len() == 0 {
        Seq::empty()
    } else {
        escape_markdown_table(s.drop_last()) + escape_cell_char(s.last())
    }
}

/// `escape_markdown`: `|` becomes `\|`.
pub fn escape_markdown_exec(text: &str) -> (r: String)
    ensures
        r@ == escape_markdown(text@),
{
    let cs = chars_of(text);
    let mut out = String::new();
    let mut i: usize = 0;
    assert(cs@.take(0) =~= Seq::<char>::empty());
    while i < cs.len()
        invariant
            i <= cs@.len(),
            cs@ == text@,
            out@ == escape_markdown(cs@.take(i as int)),
        decreases cs@.len() - i,
    {
        assert(cs@.take(i + 1).drop_last() =~= cs@.take(i as int));
        let c = cs[i];
        if c == '|' {
            push_char(&mut out, '\\');
            push_char(&mut out, '|');
        } else {
            push_char(&mut out, c);
        }
        i = i + 1;
        assert(out@ =~= escape_markdown(cs@.take(i as int)));
    }
    assert(cs@.take(i as int) =~= cs@);
    out
}

/// `escape_markdown_table`: `|` becomes `\|` and a line break a space.
pub fn escape_markdown_table_exec(text: &str) -> (r: String)
    ensures
        r@ == escape_markdown_table(text@),
{
    let cs = chars_of(text);
    let mut out = String::new();
    let mut i: usize = 0;
    assert(cs@.take(0) =~= Seq::<char>::empty());
    while i < cs.len()
        invariant
            i <= cs@.len(),
            cs@ == text@,
            out@ == escape_markdown_table(cs@.take(i as int)),
        decreases cs@.len() - i,
    {
        assert(cs@.take(i + 1).drop_last() =~= cs@.take(i as int));
        let c = cs[i];
        if c == '|' {
            push_char(&mut out, '\\');
            push_char(&mut out, '|');
        } else if c == '\n' {
            push_char(&mut out, ' ');
        } else {
            push_char(&mut out, c);
        }
        i = i + 1;
        assert(out@ =~= escape_markdown_table(cs@.take(i as int)));
    }
    assert(cs@.take(i as int) =~= cs@);
    out
}

// ---------------------------------------------------------------------------
// Tables
/// A list shown in a cell: its entries separated by `<br>`.
pub open spec fn cell_list(xs: Seq<Seq<char>>) -> Seq<char> {
    join(xs, "<br>"@)
}

/// The header of an items table, with or without a password column.
pub open spec fn table_header(with_password: bool) -> Seq<char> {
    if with_password {
        "| Item # | Password | Name | Hosts/packages | URIs |\n"@ + "| ---: | --- | --- | --- | --- |\n"@
    } else {
        "| Item # | Name | Hosts/packages | URIs |\n"@ + "| ---: | --- | --- | --- |\n"@
    }
}

/// One row of an items table.
pub open spec fn table_row(item: ReportItemModel, password_hash: Option<Seq<char>>) -> Seq<char> {
    let tail = escape_markdown_table(item.name) + " | "@ + escape_markdown_table(cell_list(item.hosts)) + " | "@
        + escape_markdown_table(cell_list(item.uris)) + " |\n"@;
    match password_hash {
        Some(p) => "| "@ + decimal(item.item_index) + " | `"@ + p + "` | "@ + tail,
        None => "| "@ + decimal(item.item_index) + " | "@ + tail,
    }
}

pub open spec fn table_rows(items: Seq<ReportItemModel>, password_hash: Option<Seq<char>>) -> Seq<char>
    decreases items.len(),
{
    if items.len() == 0 {
        Seq::empty()
    } else {
        table_rows(items.drop_last(), password_hash) + table_row(items.last(), password_hash)
    }
}

/// `write_items_table`: the header, a row per item and an empty line.
pub open spec fn items_table(items: Seq<ReportItemModel>, password_hash: Option<Seq<char>>) -> Seq<char> {
    table_header(password_hash is Some) + table_rows(items, password_hash) + "\n"@
}

fn write_item_row(output: &mut String, item: &ReportItem, password_hash: Option<&str>)
    ensures
        final(output)@ == old(output)@ + table_row(
            item.model(),
            match password_hash {
                Some(p) => Some(p@),
                None => None,
            },
        ),
{
    let n_hosts = item.hosts.len();
    let hosts = join_strings(&item.hosts, 0, n_hosts, "<br>");
    assert(Seq::new(item.hosts@.len(), |k: int| item.hosts@[k]@).subrange(0, n_hosts as int) =~= strs(
        item.hosts@,
    ));
    let n_uris = item.uris.len();
    let uris = join_strings(&item.uris, 0, n_uris, "<br>");
    assert(Seq::new(item.uris@.len(), |k: int| item.uris@[k]@).subrange(0, n_uris as int) =~= strs(
        item.uris@,
    ));
    let name = escape_markdown_table_exec(item.name.as_str());
    let h = escape_markdown_table_exec(hosts.as_str());
    let u = escape_markdown_table_exec(uris.as_str());
    let mut tail = String::new();
    push_str(&mut tail, name.as_str());
    push_str(&mut tail, " | ");
    push_str(&mut tail, h.as_str());
    push_str(&mut tail, " | ");
    push_str(&mut tail, u.as_str());
    push_str(&mut tail, " |\n");
    assert(tail@ =~= escape_markdown_table(item.model().name) + " | "@ + escape_markdown_table(
        cell_list(item.model().hosts),
    ) + " | "@ + escape_markdown_table(cell_list(item.model().uris)) + " |\n"@);
    let index = fmt_decimal(item.item_index as u64);
    let mut row = String::new();
    push_str(&mut row, "| ");
    push_str(&mut row, index.as_str());
    match password_hash {
        Some(p) => {
            push_str(&mut row, " | `");
            push_str(&mut row, p);
            push_str(&mut row, "` | ");
        },
        None => {
            push_str(&mut row, " | ");
        },
    }
    push_str(&mut row, tail.as_str());
    push_str(output, row.as_str());
}

/// `write_items_table`.
fn write_items_table(output: &mut String, items: &Vec<ReportItem>, password_hash: Option<&str>)
    ensures
        final(output)@ == old(output)@ + items_table(
            item_models(items@),
            match password_hash {
                Some(p) => Some(p@),
                None => None,
            },
        ),
{
    let ghost ph = match password_hash {
        Some(p) => Some(p@),
        None => None,
    };
    let ghost ms = item_models(items@);
    let ghost start = output@;
    match password_hash {
        Some(_) => {
            push_str(output, "| Item # | Password | Name | Hosts/packages | URIs |\n");
            push_str(output, "| ---: | --- | --- | --- | --- |\n");
        },
        None => {
            push_str(output, "| Item # | Name | Hosts/packages | URIs |\n");
            push_str(output, "| ---: | --- | --- | --- |\n");
        },
    }
    let ghost head = output@;
    assert(head =~= start + table_header(ph is Some));
    let mut i: usize = 0;
    assert(ms.take(0) =~= Seq::<ReportItemModel>::empty());
    while i < items.len()
        invariant
            i <= items@.len(),
            ms == item_models(items@),
            ph == (match password_hash {
                Some(p) => Some(p@),
                None => None,
            }),
            output@ == head + table_rows(ms.take(i as int), ph),
        decreases items@.len() - i,
    {
        assert(ms.take(i + 1).drop_last() =~= ms.take(i as int));
        let ghost before = output@;
        write_item_row(output, &items[i], password_hash);
        assert(ms[i as int] == items@[i as int].model());
        i = i + 1;
    }
    assert(ms.take(i as int) =~= ms);
    push_str(output, "\n");
}

// ---------------------------------------------------------------------------
// The report
/// A summary line with one count.
pub open spec fn count_line(label: Seq<char>, n: nat, tail: Seq<char>) -> Seq<char> {
    label + decimal(n) + tail
}

/// A summary line with two counts.
pub open spec fn counts_line(label: Seq<char>, a: nat, mid: Seq<char>, b: nat, tail: Seq<char>) -> Seq<char> {
    label + decimal(a) + mid + decimal(b) + tail
}

pub open spec fn summary_text(s: SummaryModel) -> Seq<char> {
    "## Summary\n\n"@ + count_line("- Total items: "@, s.total_items, "\n"@) + count_line(
        "- Login items: "@,
        s.login_items,
        "\n"@,
    ) + count_line(
        "- Login items with username and password: "@,
        s.login_items_with_username_password,
        "\n"@,
    ) + counts_line(
        "- Reused credential groups: "@,
        s.duplicate_credential_groups,
        " groups, "@,
        s.duplicate_credential_items,
        " items\n"@,
    ) + counts_line(
        "- High-confidence merge candidates: "@,
        s.high_confidence_merge_groups,
        " groups, "@,
        s.high_confidence_merge_items,
        " items\n"@,
    ) + count_line(
        "- Same account/site with different passwords: "@,
        s.password_conflict_groups,
        " groups\n"@,
    ) + count_line("- Review-only reused credential groups: "@, s.review_groups, "\n\n"@)
}

pub open spec fn candidate_text(c: CandidateModel) -> Seq<char> {
    "### "@ + c.id + ": "@ + escape_markdown(c.service) + "\n\n"@ + "- account_hash: `"@ + c.account_hash
        + "`\n- credential_hash: `"@ + c.credential_hash + "`\n- reason: "@ + escape_markdown(c.reason)
        + "\n\n"@ + items_table(c.items, None)
}

pub open spec fn candidates_text(cs: Seq<CandidateModel>) -> Seq<char>
    decreases cs.len(),
{
    if cs.len() == 0 {
        Seq::empty()
    } else {
        candidates_text(cs.drop_last()) + candidate_text(cs.last())
    }
}

pub open spec fn variant_text(v: VariantModel) -> Seq<char> {
    "Password hash `"@ + v.password_hash + "`:\n\n"@ + items_table(v.items, None)
}

pub open spec fn variants_text(vs: Seq<VariantModel>) -> Seq<char>
    decreases vs.len(),
{
    if vs.len() == 0 {
        Seq::empty()
    } else {
        variants_text(vs.drop_last()) + variant_text(vs.last())
    }
}

pub open spec fn conflict_text(c: ConflictModel) -> Seq<char> {
    "### "@ + c.id + ": "@ + escape_markdown(c.service) + "\n\n"@ + "- account_hash: `"@ + c.account_hash
        + "`\n- reason: "@ + escape_markdown(c.reason) + "\n\n"@ + variants_text(c.variants)
}

pub open spec fn conflicts_text(cs: Seq<ConflictModel>) -> Seq<char>
    decreases cs.len(),
{
    if cs.len() == 0 {
        Seq::empty()
    } else {
        conflicts_text(cs.drop_last()) + conflict_text(cs.last())
    }
}

pub open spec fn review_text(g: ReviewModel) -> Seq<char> {
    "### "@ + g.id + ": "@ + escape_markdown(g.service_summary) + "\n\n"@ + "- account_hash: `"@
        + g.account_hash + "`\n- credential_hash: `"@ + g.credential_hash + "`\n- reason: "@ + escape_markdown(
        g.reason,
    ) + "\n\n"@ + items_table(g.items, None)
}

pub open spec fn reviews_text(gs: Seq<ReviewModel>) -> Seq<char>
    decreases gs.len(),
{
    if gs.len() == 0 {
        Seq::empty()
    } else {
        reviews_text(gs.drop_last()) + review_text(gs.last())
    }
}

/// `analysis_to_markdown`.
pub open spec fn markdown(a: AnalysisModel) -> Seq<char> {
    "# Bitwarden merge analysis report\n\n"@ + "This report is generated from a sanitized Bitwarden JSON export. "@
        + "Credential identifiers are stable short hashes of sanitized tokens, not original secrets.\n\n"@
        + summary_text(a.summary) + "## High-confidence merge candidates\n\n"@ + (if a.candidates.len() == 0 {
        "No high-confidence merge candidates found.\n\n"@
    } else {
        candidates_text(a.candidates)
    }) + "## Same account/site with different passwords\n\n"@ + (if a.conflicts.len() == 0 {
        "No same-account same-site password conflicts found.\n\n"@
    } else {
        conflicts_text(a.conflicts)
    }) + "## Review-only reused credential groups\n\n"@
        + "These groups reuse the same account/password, but the related services were ambiguous or mixed with unrelated services. They are not merge recommendations.\n\n"@
        + (if a.reviews.len() == 0 {
        "No review-only groups found.\n"@
    } else {
        reviews_text(a.reviews)
    })
}

fn push_count_line(output: &mut String, label: &str, n: usize, tail: &str)
    ensures
        final(output)@ == old(output)@ + count_line(label@, n as nat, tail@),
{
    let ghost start = output@;
    push_str(output, label);
    let d = fmt_decimal(n as u64);
    push_str(output, d.as_str());
    push_str(output, tail);
    assert(output@ =~= start + count_line(label@, n as nat, tail@));
}

fn push_counts_line(output: &mut String, label: &str, a: usize, mid: &str, b: usize, tail: &str)
    ensures
        final(output)@ == old(output)@ + counts_line(label@, a as nat, mid@, b as nat, tail@),
{
    let ghost start = output@;
    push_str(output, label);
    let d = fmt_decimal(a as u64);
    push_str(output, d.as_str());
    push_str(output, mid);
    let e = fmt_decimal(b as u64);
    push_str(output, e.as_str());
    push_str(output, tail);
    assert(output@ =~= start + counts_line(label@, a as nat, mid@, b as nat, tail@));
}

fn write_summary(output: &mut String, s: &crate::analyze::AnalysisSummary)
    ensures
        final(output)@ == old(output)@ + summary_text(s.model()),
{
    let ghost start = output@;
    push_str(output, "## Summary\n\n");
    push_count_line(output, "- Total items: ", s.total_items, "\n");
    push_count_line(output, "- Login items: ", s.login_items, "\n");
    push_count_line(
        output,
        "- Login items with username and password: ",
        s.login_items_with_username_password,
        "\n",
    );
    push_counts_line(
        output,
        "- Reused credential groups: ",
        s.duplicate_credential_groups,
        " groups, ",
        s.duplicate_credential_items,
        " items\n",
    );
    push_counts_line(
        output,
        "- High-confidence merge candidates: ",
        s.high_confidence_merge_groups,
        " groups, ",
        s.high_confidence_merge_items,
        " items\n",
    );
    push_count_line(output, "- Same account/site with different passwords: ", s.password_conflict_groups, " groups\n");
    push_count_line(output, "- Review-only reused credential groups: ", s.review_groups, "\n\n");
    assert(output@ =~= start + summary_text(s.model()));
}

fn write_candidate(output: &mut String, c: &MergeCandidate)
    ensures
        final(output)@ == old(output)@ + candidate_text(c.model()),
{
    let ghost start = output@;
    push_str(output, "### ");
    push_str(output, c.id.as_str());
    push_str(output, ": ");
    let service = escape_markdown_exec(c.service.as_str());
    push_str(output, service.as_str());
    push_str(output, "\n\n");
    push_str(output, "- account_hash: `");
    push_str(output, c.account_hash.as_str());
    push_str(output, "`\n- credential_hash: `");
    push_str(output, c.credential_hash.as_str());
    push_str(output, "`\n- reason: ");
    let reason = escape_markdown_exec(c.reason.as_str());
    push_str(output, reason.as_str());
    push_str(output, "\n\n");
    let ghost mid = output@;
    write_items_table(output, &c.items, None);
    assert(output@ =~= start + candidate_text(c.model()));
}

fn write_variant(output: &mut String, v: &PasswordVariant)
    ensures
        final(output)@ == old(output)@ + variant_text(v.model()),
{
    let ghost start = output@;
    push_str(output, "Password hash `");
    push_str(output, v.password_hash.as_str());
    push_str(output, "`:\n\n");
    write_items_table(output, &v.items, None);
    assert(output@ =~= start + variant_text(v.model()));
}

fn write_conflict(output: &mut String, c: &PasswordConflict)
    ensures
        final(output)@ == old(output)@ + conflict_text(c.model()),
{
    let ghost start = output@;
    push_str(output, "### ");
    push_str(output, c.id.as_str());
    push_str(output, ": ");
    let service = escape_markdown_exec(c.service.as_str());
    push_str(output, service.as_str());
    push_str(output, "\n\n");
    push_str(output, "- account_hash: `");
    push_str(output, c.account_hash.as_str());
    push_str(output, "`\n- reason: ");
    let reason = escape_markdown_exec(c.reason.as_str());
    push_str(output, reason.as_str());
    push_str(output, "\n\n");
    let ghost head = output@;
    let ghost vs = variant_models(c.password_variants@);
    let mut i: usize = 0;
    assert(vs.take(0) =~= Seq::<VariantModel>::empty());
    while i < c.password_variants.len()
        invariant
            i <= c.password_variants@.len(),
            vs == variant_models(c.password_variants@),
            output@ == head + variants_text(vs.take(i as int)),
        decreases c.password_variants@.len() - i,
    {
        assert(vs.take(i + 1).drop_last() =~= vs.take(i as int));
        write_variant(output, &c.password_variants[i]);
        i = i + 1;
    }
    assert(vs.take(i as int) =~= vs);
    assert(output@ =~= start + conflict_text(c.model()));
}

fn write_review(output: &mut String, g: &ReviewGroup)
    ensures
        final(output)@ == old(output)@ + review_text(g.model()),
{
    let ghost start = output@;
    push_str(output, "### ");
    push_str(output, g.id.as_str());
    push_str(output, ": ");
    let service = escape_markdown_exec(g.service_summary.as_str());
    push_str(output, service.as_str());
    push_str(output, "\n\n");
    push_str(output, "- account_hash: `");
    push_str(output, g.account_hash.as_str());
    push_str(output, "`\n- credential_hash: `");
    push_str(output, g.credential_hash.as_str());
    push_str(output, "`\n- reason: ");
    let reason = escape_markdown_exec(g.reason.as_str());
    push_str(output, reason.as_str());
    push_str(output, "\n\n");
    write_items_table(output, &g.items, None);
    assert(output@ =~= start + review_text(g.model()));
}

/// `analysis_to_markdown`: the report of an analysis in Markdown.
pub fn analysis_to_markdown(analysis: &MergeAnalysis) -> (r: String)
    ensures
        r@ == markdown(analysis.model()),
{
    let ghost a = analysis.model();
    let mut output = String::new();
    push_str(&mut output, "# Bitwarden merge analysis report\n\n");
    push_str(&mut output, "This report is generated from a sanitized Bitwarden JSON export. ");
    push_str(
        &mut output,
        "Credential identifiers are stable short hashes of sanitized tokens, not original secrets.\n\n",
    );
    write_summary(&mut output, &analysis.summary);
    push_str(&mut output, "## High-confidence merge candidates\n\n");
    let ghost p1 = output@;
    let cands = &analysis.high_confidence_merge_candidates;
    if cands.len() == 0 {
        push_str(&mut output, "No high-confidence merge candidates found.\n\n");
    } else {
        let ghost cs = candidate_models(cands@);
        let mut i: usize = 0;
        assert(cs.take(0) =~= Seq::<CandidateModel>::empty());
        while i < cands.len()
            invariant
                i <= cands@.len(),
                cs == candidate_models(cands@),
                output@ == p1 + candidates_text(cs.take(i as int)),
            decreases cands@.len() - i,
        {
            assert(cs.take(i + 1).drop_last() =~= cs.take(i as int));
            write_candidate(&mut output, &cands[i]);
            i = i + 1;
        }
        assert(cs.take(i as int) =~= cs);
    }
    push_str(&mut output, "## Same account/site with different passwords\n\n");
    let ghost p2 = output@;
    let conflicts = &analysis.same_account_site_different_passwords;
    if conflicts.len() == 0 {
        push_str(&mut output, "No same-account same-site password conflicts found.\n\n");
    } else {
        let ghost cs = conflict_models(conflicts@);
        let mut i: usize = 0;
        assert(cs.take(0) =~= Seq::<ConflictModel>::empty());
        while i < conflicts.len()
            invariant
                i <= conflicts@.len(),
                cs == conflict_models(conflicts@),
                output@ == p2 + conflicts_text(cs.take(i as int)),
            decreases conflicts@.len() - i,
        {
            assert(cs.take(i + 1).drop_last() =~= cs.take(i as int));
            write_conflict(&mut output, &conflicts[i]);
            i = i + 1;
        }
        assert(cs.take(i as int) =~= cs);
    }
    push_str(&mut output, "## Review-only reused credential groups\n\n");
    push_str(
        &mut output,
        "These groups reuse the same account/password, but the related services were ambiguous or mixed with unrelated services. They are not merge recommendations.\n\n",
    );
    let ghost p3 = output@;
    let reviews = &analysis.review_groups;
    if reviews.len() == 0 {
        push_str(&mut output, "No review-only groups found.\n");
    } else {
        let ghost gs = review_models(reviews@);
        let mut i: usize = 0;
        assert(gs.take(0) =~= Seq::<ReviewModel>::empty());
        while i < reviews.len()
            invariant
                i <= reviews@.len(),
                gs == review_models(reviews@),
                output@ == p3 + reviews_text(gs.take(i as int)),
            decreases reviews@.len() - i,
        {
            assert(gs.take(i + 1).drop_last() =~= gs.take(i as int));
            write_review(&mut output, &reviews[i]);
            i = i + 1;
        }
        assert(gs.take(i as int) =~= gs);
    }
    assert(output@ =~= markdown(a));
    output
}

// ---------------------------------------------------------------------------
// What the report says
/// Whether `seg` occurs in `text` as a contiguous piece.
pub open spec fn has_segment(text: Seq<char>, seg: Seq<char>) -> bool {
    exists|i: int| 0 <= i && i + seg.len() <= text.len() && #[trigger] text.subrange(i, i + seg.len()) == seg
}

proof fn lemma_segment(pre: Seq<char>, seg: Seq<char>, post: Seq<char>)
    ensures
        has_segment(pre + seg + post, seg),
{
    let t = pre + seg + post;
    assert(t.subrange(pre.len() as int, (pre.len() + seg.len()) as int) =~= seg);
}

proof fn lemma_segment_after(p: Seq<char>, q: Seq<char>, seg: Seq<char>)
    requires
        has_segment(p, seg),
    ensures
        has_segment(p + q, seg),
{
    let i = choose|i: int| 0 <= i && i + seg.len() <= p.len() && #[trigger] p.subrange(i, i + seg.len()) == seg;
    assert((p + q).subrange(i, i + seg.len()) =~= p.subrange(i, i + seg.len()));
}

proof fn lemma_segment_before(p: Seq<char>, q: Seq<char>, seg: Seq<char>)
    requires
        has_segment(q, seg),
    ensures
        has_segment(p + q, seg),
{
    let i = choose|i: int| 0 <= i && i + seg.len() <= q.len() && #[trigger] q.subrange(i, i + seg.len()) == seg;
    assert((p + q).subrange(p.len() + i, p.len() + i + seg.len()) =~= q.subrange(i, i + seg.len()));
}

/// Each of the pieces after the first occurs in their concatenation.
proof fn lemma_pieces(
    x0: Seq<char>,
    x1: Seq<char>,
    x2: Seq<char>,
    x3: Seq<char>,
    x4: Seq<char>,
    x5: Seq<char>,
    x6: Seq<char>,
    x7: Seq<char>,
)
    ensures
        ({
            let t = x0 + x1 + x2 + x3 + x4 + x5 + x6 + x7;
            &&& has_segment(t, x1)
            &&& has_segment(t, x2)
            &&& has_segment(t, x3)
            &&& has_segment(t, x4)
            &&& has_segment(t, x5)
            &&& has_segment(t, x6)
            &&& has_segment(t, x7)
        }),
{
    let p1 = x0 + x1;
    let p2 = p1 + x2;
    let p3 = p2 + x3;
    let p4 = p3 + x4;
    let p5 = p4 + x5;
    let p6 = p5 + x6;
    lemma_segment(x0, x1, Seq::empty());
    assert(x0 + x1 + Seq::<char>::empty() =~= p1);
    lemma_segment(p1, x2, Seq::empty());
    assert(p1 + x2 + Seq::<char>::empty() =~= p2);
    lemma_segment(p2, x3, Seq::empty());
    assert(p2 + x3 + Seq::<char>::empty() =~= p3);
    lemma_segment(p3, x4, Seq::empty());
    assert(p3 + x4 + Seq::<char>::empty() =~= p4);
    lemma_segment(p4, x5, Seq::empty());
    assert(p4 + x5 + Seq::<char>::empty() =~= p5);
    lemma_segment(p5, x6, Seq::empty());
    assert(p5 + x6 + Seq::<char>::empty() =~= p6);
    lemma_segment(p6, x7, Seq::empty());
    assert(p6 + x7 + Seq::<char>::empty() =~= p6 + x7);
    lemma_segment_after(p1, x2, x1);
    lemma_segment_after(p2, x3, x1);
    lemma_segment_after(p2, x3, x2);
    lemma_segment_after(p3, x4, x1);
    lemma_segment_after(p3, x4, x2);
    lemma_segment_after(p3, x4, x3);
    lemma_segment_after(p4, x5, x1);
    lemma_segment_after(p4, x5, x2);
    lemma_segment_after(p4, x5, x3);
    lemma_segment_after(p4, x5, x4);
    lemma_segment_after(p5, x6, x1);
    lemma_segment_after(p5, x6, x2);
    lemma_segment_after(p5, x6, x3);
    lemma_segment_after(p5, x6, x4);
    lemma_segment_after(p5, x6, x5);
    lemma_segment_after(p6, x7, x1);
    lemma_segment_after(p6, x7, x2);
    lemma_segment_after(p6, x7, x3);
    lemma_segment_after(p6, x7, x4);
    lemma_segment_after(p6, x7, x5);
    lemma_segment_after(p6, x7, x6);
}

/// A piece of the summary occurs in the whole report.
proof fn lemma_in_report(
    head: Seq<char>,
    summary: Seq<char>,
    y1: Seq<char>,
    y2: Seq<char>,
    y3: Seq<char>,
    y4: Seq<char>,
    y5: Seq<char>,
    y6: Seq<char>,
    y7: Seq<char>,
    seg: Seq<char>,
)
    requires
        has_segment(summary, seg),
    ensures
        has_segment(head + summary + y1 + y2 + y3 + y4 + y5 + y6 + y7, seg),
{
    lemma_segment_before(head, summary, seg);
    lemma_segment_after(head + summary, y1, seg);
    lemma_segment_after(head + summary + y1, y2, seg);
    lemma_segment_after(head + summary + y1 + y2, y3, seg);
    lemma_segment_after(head + summary + y1 + y2 + y3, y4, seg);
    lemma_segment_after(head + summary + y1 + y2 + y3 + y4, y5, seg);
    lemma_segment_after(head + summary + y1 + y2 + y3 + y4 + y5, y6, seg);
    lemma_segment_after(head + summary + y1 + y2 + y3 + y4 + y5 + y6, y7, seg);
}

/// The report's summary gives each count of the analysis on its own line:
/// the total items, the login items, those with a username and password, the
/// reused credential groups and their items, the high-confidence merge
/// candidates and their items, the groups of one account and site with
/// different passwords, and the review-only groups.
pub proof fn law_markdown_reports_counts(a: AnalysisModel)
    ensures
        ({
            let s = a.summary;
            let m = markdown(a);
            &&& has_segment(m, "- Total items: "@ + decimal(s.total_items) + "\n"@)
            &&& has_segment(m, "- Login items: "@ + decimal(s.login_items) + "\n"@)
            &&& has_segment(
                m,
                "- Login items with username and password: "@ + decimal(s.login_items_with_username_password) + "\n"@,
            )
            &&& has_segment(
                m,
                "- Reused credential groups: "@ + decimal(s.duplicate_credential_groups) + " groups, "@ + decimal(
                    s.duplicate_credential_items,
                ) + " items\n"@,
            )
            &&& has_segment(
                m,
                "- High-confidence merge candidates: "@ + decimal(s.high_confidence_merge_groups) + " groups, "@
                    + decimal(s.high_confidence_merge_items) + " items\n"@,
            )
            &&& has_segment(
                m,
                "- Same account/site with different passwords: "@ + decimal(s.password_conflict_groups) + " groups\n"@,
            )
            &&& has_segment(m, "- Review-only reused credential groups: "@ + decimal(s.review_groups) + "\n\n"@)
        }),
{
    let s = a.summary;
    let m = markdown(a);
    let head = "# Bitwarden merge analysis report\n\n"@ + "This report is generated from a sanitized Bitwarden JSON export. "@
        + "Credential identifiers are stable short hashes of sanitized tokens, not original secrets.\n\n"@;
    let y1 = "## High-confidence merge candidates\n\n"@;
    let y2 = if a.candidates.len() == 0 {
        "No high-confidence merge candidates found.\n\n"@
    } else {
        candidates_text(a.candidates)
    };
    let y3 = "## Same account/site with different passwords\n\n"@;
    let y4 = if a.conflicts.len() == 0 {
        "No same-account same-site password conflicts found.\n\n"@
    } else {
        conflicts_text(a.conflicts)
    };
    let y5 = "## Review-only reused credential groups\n\n"@;
    let y6 = "These groups reuse the same account/password, but the related services were ambiguous or mixed with unrelated services. They are not merge recommendations.\n\n"@;
    let y7 = if a.reviews.len() == 0 {
        "No review-only groups found.\n"@
    } else {
        reviews_text(a.reviews)
    };
    let summary = summary_text(s);
    assert(m == head + summary + y1 + y2 + y3 + y4 + y5 + y6 + y7);
    let l0 = "## Summary\n\n"@;
    let l1 = count_line("- Total items: "@, s.total_items, "\n"@);
    let l2 = count_line("- Login items: "@, s.login_items, "\n"@);
    let l3 = count_line("- Login items with username and password: "@, s.login_items_with_username_password, "\n"@);
    let l4 = counts_line(
        "- Reused credential groups: "@,
        s.duplicate_credential_groups,
        " groups, "@,
        s.duplicate_credential_items,
        " items\n"@,
    );
    let l5 = counts_line(
        "- High-confidence merge candidates: "@,
        s.high_confidence_merge_groups,
        " groups, "@,
        s.high_confidence_merge_items,
        " items\n"@,
    );
    let l6 = count_line("- Same account/site with different passwords: "@, s.password_conflict_groups, " groups\n"@);
    let l7 = count_line("- Review-only reused credential groups: "@, s.review_groups, "\n\n"@);
    assert(summary == l0 + l1 + l2 + l3 + l4 + l5 + l6 + l7);
    lemma_pieces(l0, l1, l2, l3, l4, l5, l6, l7);
    lemma_in_report(head, summary, y1, y2, y3, y4, y5, y6, y7, l1);
    lemma_in_report(head, summary, y1, y2, y3, y4, y5, y6, y7, l2);
    lemma_in_report(head, summary, y1, y2, y3, y4, y5, y6, y7, l3);
    lemma_in_report(head, summary, y1, y2, y3, y4, y5, y6, y7, l4);
    lemma_in_report(head, summary, y1, y2, y3, y4, y5, y6, y7, l5);
    lemma_in_report(head, summary, y1, y2, y3, y4, y5, y6, y7, l6);
    lemma_in_report(head, summary, y1, y2, y3, y4, y5, y6, y7, l7);
}

} // verus!
