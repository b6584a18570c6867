//! The plain-text report.
use vstd::prelude::*;
use super::Report;
use crate::analysis::AuthorView;
use crate::blame::{BlameView, FileBlameView};
use crate::seqs::views;
use crate::strutil::{align_left, align_right, fill, nat_chars, nat_text, push_fill, push_left, push_right, push_str, push_all, string_of};
use crate::timeline::PeriodView;

verus! {

/// The header row of the author table.
pub open spec fn author_header() -> Seq<char> {
    align_left("Author"@, 25, ' ') + " | "@ + align_right("Commits"@, 10) + " | "@
        + align_right("Insertions"@, 15) + " | "@ + align_right("Deletions"@, 15) + "\n"@
}

/// The rule under the author table's header.
pub open spec fn author_rule() -> Seq<char> {
    fill('-', 25) + "-|-"@ + fill('-', 10) + "-|-"@ + fill('-', 15) + "-|-"@ + fill('-', 15) + "\n"@
}

/// One author's row.
pub open spec fn author_row(a: AuthorView) -> Seq<char> {
    align_left(a.name, 25, ' ') + " | "@ + align_right(nat_text(a.commits), 10) + " | "@
        + align_right(nat_text(a.insertions), 15) + " | "@ + align_right(nat_text(a.deletions), 15) + "\n"@
}

/// The rows of all authors, in order.
pub open spec fn author_rows(s: Seq<AuthorView>) -> Seq<char>
    decreases s.len(),
{
    if s.len() == 0 {
        Seq::empty()
    } else {
        author_rows(s.drop_last()) + author_row(s.last())
    }
}

/// The header row of the timeline table.
pub open spec fn period_header() -> Seq<char> {
    align_left("Period"@, 10, ' ') + " | "@ + align_right("Commits"@, 10) + " | "@
        + align_right("Insertions"@, 10) + " | "@ + align_right("Deletions"@, 10) + "\n"@
}

/// The rule under the timeline table's header.
pub open spec fn period_rule() -> Seq<char> {
    fill('-', 10) + "-|-"@ + fill('-', 10) + "-|-"@ + fill('-', 10) + "-|-"@ + fill('-', 10) + "\n"@
}

/// One period's row.
pub open spec fn period_row(p: PeriodView) -> Seq<char> {
    align_left(p.period_name, 10, ' ') + " | "@ + align_right(nat_text(p.commits), 10) + " | "@
        + align_right(nat_text(p.insertions), 10) + " | "@ + align_right(nat_text(p.deletions), 10) + "\n"@
}

/// The rows of all periods, in order.
pub open spec fn period_rows(s: Seq<PeriodView>) -> Seq<char>
    decreases s.len(),
{
    if s.len() == 0 {
        Seq::empty()
    } else {
        period_rows(s.drop_last()) + period_row(s.last())
    }
}

/// One owned file's row.
pub open spec fn owned_file_row(f: FileBlameView) -> Seq<char> {
    "  "@ + align_left(f.path, 40, ' ') + " | "@ + align_right(nat_text(f.lines), 10) + "\n"@
}

/// The rows of an owner's files, in order.
pub open spec fn owned_file_rows(s: Seq<FileBlameView>) -> Seq<char>
    decreases s.len(),
{
    if s.len() == 0 {
        Seq::empty()
    } else {
        owned_file_rows(s.drop_last()) + owned_file_row(s.last())
    }
}

/// One owner's block: a line with name and line count, then the owner's files.
pub open spec fn owner_block(b: BlameView) -> Seq<char> {
    "\n"@ + b.author_name + " ("@ + nat_text(b.lines) + " lines)\n"@ + owned_file_rows(b.top_files)
}

/// The blocks of all owners, in order.
pub open spec fn owner_blocks(s: Seq<BlameView>) -> Seq<char>
    decreases s.len(),
{
    if s.len() == 0 {
        Seq::empty()
    } else {
        owner_blocks(s.drop_last()) + owner_block(s.last())
    }
}

/// Appends ` | `.
fn push_sep(out: &mut Vec<char>)
    ensures
        final(out)@ == old(out)@ + " | "@,
{
    push_str(out, " | ");
}

/// The opening lines: repository, branch, remote and the author count.
pub open spec fn preamble(r: Report) -> Seq<char> {
    "Repository: "@ + r.repo_name@ + "\n"@
        + "Branch:     "@ + r.branch_name@ + "\n"@
        + match r.remote_url {
            Some(u) => "Remote:     "@ + u@ + "\n"@,
            None => Seq::empty(),
        }
        + "Found "@ + nat_text(r.authors@.len()) + " authors.\n\n"@
}

/// The author table.
pub open spec fn author_section(s: Seq<AuthorView>) -> Seq<char> {
    author_header() + author_rule() + author_rows(s) + "\n"@
}

/// The timeline table, when there is a timeline.
pub open spec fn timeline_section(t: Option<Seq<PeriodView>>) -> Seq<char> {
    match t {
        Some(ps) => "--- Timeline ---\n"@ + period_header() + period_rule() + period_rows(ps) + "\n"@,
        None => Seq::empty(),
    }
}

/// The ownership blocks, when there are any.
pub open spec fn blame_section(b: Option<Seq<BlameView>>) -> Seq<char> {
    match b {
        Some(bs) => "--- Blame Responsibilities ---\n"@ + owner_blocks(bs) + "\n"@,
        None => Seq::empty(),
    }
}

/// The metrics note, when metrics are on.
pub open spec fn metrics_section(on: bool) -> Seq<char> {
    if on {
        "--- Metrics ---\n"@ + "Cyclomatic complexity feature is active.\n"@
    } else {
        Seq::empty()
    }
}

/// The plain-text report: the preamble, the author table, then the timeline table, the
/// ownership blocks and the metrics note, each when present.
pub open spec fn text_report(r: Report) -> Seq<char> {
    preamble(r) + author_section(views(r.authors@))
        + timeline_section(match r.timeline { Some(t) => Some(views(t@)), None => None })
        + blame_section(match r.blame { Some(b) => Some(views(b@)), None => None })
        + metrics_section(r.metrics_enabled)
}

fn push_preamble(out: &mut Vec<char>, report: &Report)
    ensures
        final(out)@ == old(out)@ + preamble(*report),
{
    push_str(out, "Repository: ");
    push_str(out, report.repo_name.as_str());
    push_str(out, "\n");
    push_str(out, "Branch:     ");
    push_str(out, report.branch_name.as_str());
    push_str(out, "\n");
    match &report.remote_url {
        Some(url) => {
            push_str(out, "Remote:     ");
            push_str(out, url.as_str());
            push_str(out, "\n");
        },
        None => {},
    }
    push_str(out, "Found ");
    push_all(out, &nat_chars(report.authors.len() as u64));
    push_str(out, " authors.\n\n");
    assert(out@ =~= old(out)@ + preamble(*report));
}

fn push_author_header(out: &mut Vec<char>)
    ensures
        final(out)@ == old(out)@ + author_header() + author_rule(),
{
    push_left(out, &crate::strutil::chars_of("Author"), 25, ' ');
    push_sep(out);
    push_right(out, &crate::strutil::chars_of("Commits"), 10);
    push_sep(out);
    push_right(out, &crate::strutil::chars_of("Insertions"), 15);
    push_sep(out);
    push_right(out, &crate::strutil::chars_of("Deletions"), 15);
    push_str(out, "\n");
    let ghost h2 = out@;
    assert(h2 =~= old(out)@ + author_header());
    push_fill(out, '-', 25);
    push_str(out, "-|-");
    push_fill(out, '-', 10);
    push_str(out, "-|-");
    push_fill(out, '-', 15);
    push_str(out, "-|-");
    push_fill(out, '-', 15);
    push_str(out, "\n");
    assert(out@ =~= h2 + author_rule());
}

fn push_author_row(out: &mut Vec<char>, a: &crate::analysis::AuthorStats)
    ensures
        final(out)@ == old(out)@ + author_row(a@),
{
    push_left(out, &crate::strutil::chars_of(a.name.as_str()), 25, ' ');
    push_sep(out);
    push_right(out, &nat_chars(a.commits as u64), 10);
    push_sep(out);
    push_right(out, &nat_chars(a.insertions as u64), 15);
    push_sep(out);
    push_right(out, &nat_chars(a.deletions as u64), 15);
    push_str(out, "\n");
    assert(out@ =~= old(out)@ + author_row(a@));
}

fn push_author_section(out: &mut Vec<char>, authors: &Vec<crate::analysis::AuthorStats>)
    ensures
        final(out)@ == old(out)@ + author_section(views(authors@)),
{
    push_author_header(out);
    let ghost h3 = out@;
    let ghost avs = views(authors@);
    let mut i: usize = 0;
    assert(avs.take(0) =~= Seq::<AuthorView>::empty());
    while i < authors.len()
        invariant
            i <= authors@.len() == avs.len(),
            avs == views(authors@),
            out@ == h3 + author_rows(avs.take(i as int)),
        decreases authors@.len() - i,
    {
        push_author_row(out, &authors[i]);
        assert(avs.take(i + 1).drop_last() =~= avs.take(i as int));
        assert(avs.take(i + 1).last() == authors@[i as int]@);
        i = i + 1;
    }
    assert(avs.take(authors@.len() as int) =~= avs);
    push_str(out, "\n");
    assert(out@ =~= old(out)@ + author_section(avs));
}

fn push_period_header(out: &mut Vec<char>)
    ensures
        final(out)@ == old(out)@ + period_header() + period_rule(),
{
    push_left(out, &crate::strutil::chars_of("Period"), 10, ' ');
    push_sep(out);
    push_right(out, &crate::strutil::chars_of("Commits"), 10);
    push_sep(out);
    push_right(out, &crate::strutil::chars_of("Insertions"), 10);
    push_sep(out);
    push_right(out, &crate::strutil::chars_of("Deletions"), 10);
    push_str(out, "\n");
    let ghost t1 = out@;
    assert(t1 =~= old(out)@ + period_header());
    push_fill(out, '-', 10);
    push_str(out, "-|-");
    push_fill(out, '-', 10);
    push_str(out, "-|-");
    push_fill(out, '-', 10);
    push_str(out, "-|-");
    push_fill(out, '-', 10);
    push_str(out, "\n");
    assert(out@ =~= t1 + period_rule());
}

fn push_period_row(out: &mut Vec<char>, p: &crate::timeline::TimelinePeriod)
    ensures
        final(out)@ == old(out)@ + period_row(p@),
{
    push_left(out, &crate::strutil::chars_of(p.period_name.as_str()), 10, ' ');
    push_sep(out);
    push_right(out, &nat_chars(p.commits as u64), 10);
    push_sep(out);
    push_right(out, &nat_chars(p.insertions as u64), 10);
    push_sep(out);
    push_right(out, &nat_chars(p.deletions as u64), 10);
    push_str(out, "\n");
    assert(out@ =~= old(out)@ + period_row(p@));
}

fn push_timeline_section(out: &mut Vec<char>, timeline: &Option<Vec<crate::timeline::TimelinePeriod>>)
    ensures
        final(out)@ == old(out)@ + timeline_section(match *timeline { Some(t) => Some(views(t@)), None => None }),
{
    match timeline {
        Some(timeline) => {
            push_str(out, "--- Timeline ---\n");
            push_period_header(out);
            let ghost t2 = out@;
            let ghost pvs = views(timeline@);
            let mut i: usize = 0;
            assert(pvs.take(0) =~= Seq::<PeriodView>::empty());
            while i < timeline.len()
                invariant
                    i <= timeline@.len() == pvs.len(),
                    pvs == views(timeline@),
                    out@ == t2 + period_rows(pvs.take(i as int)),
                decreases timeline@.len() - i,
            {
                push_period_row(out, &timeline[i]);
                assert(pvs.take(i + 1).drop_last() =~= pvs.take(i as int));
                assert(pvs.take(i + 1).last() == timeline@[i as int]@);
                i = i + 1;
            }
            assert(pvs.take(timeline@.len() as int) =~= pvs);
            push_str(out, "\n");
            assert(out@ =~= old(out)@ + timeline_section(Some(pvs)));
        },
        None => {
            assert(out@ =~= old(out)@ + timeline_section(None));
        },
    }
}

fn push_owner_block(out: &mut Vec<char>, b: &crate::blame::BlameStats)
    ensures
        final(out)@ == old(out)@ + owner_block(b@),
{
    push_str(out, "\n");
    push_str(out, b.author_name.as_str());
    push_str(out, " (");
    push_all(out, &nat_chars(b.lines as u64));
    push_str(out, " lines)\n");
    let ghost f0 = out@;
    let ghost fvs = views(b.top_files@);
    let mut j: usize = 0;
    assert(fvs.take(0) =~= Seq::<FileBlameView>::empty());
    while j < b.top_files.len()
        invariant
            j <= b.top_files@.len() == fvs.len(),
            fvs == views(b.top_files@),
            out@ == f0 + owned_file_rows(fvs.take(j as int)),
        decreases b.top_files@.len() - j,
    {
        let f = &b.top_files[j];
        let ghost fb = out@;
        push_str(out, "  ");
        push_left(out, &crate::strutil::chars_of(f.path.as_str()), 40, ' ');
        push_sep(out);
        push_right(out, &nat_chars(f.lines as u64), 10);
        push_str(out, "\n");
        assert(out@ =~= fb + owned_file_row(f@));
        assert(fvs.take(j + 1).drop_last() =~= fvs.take(j as int));
        assert(fvs.take(j + 1).last() == f@);
        j = j + 1;
    }
    assert(fvs.take(b.top_files@.len() as int) =~= fvs);
    assert(out@ =~= old(out)@ + owner_block(b@));
}

fn push_blame_section(out: &mut Vec<char>, blame: &Option<Vec<crate::blame::BlameStats>>)
    ensures
        final(out)@ == old(out)@ + blame_section(match *blame { Some(b) => Some(views(b@)), None => None }),
{
    match blame {
        Some(blame) => {
            push_str(out, "--- Blame Responsibilities ---\n");
            let ghost b0 = out@;
            let ghost bvs = views(blame@);
            let mut i: usize = 0;
            assert(bvs.take(0) =~= Seq::<BlameView>::empty());
            while i < blame.len()
                invariant
                    i <= blame@.len() == bvs.len(),
                    bvs == views(blame@),
                    out@ == b0 + owner_blocks(bvs.take(i as int)),
                decreases blame@.len() - i,
            {
                push_owner_block(out, &blame[i]);
                assert(bvs.take(i + 1).drop_last() =~= bvs.take(i as int));
                assert(bvs.take(i + 1).last() == blame@[i as int]@);
                i = i + 1;
            }
            assert(bvs.take(blame@.len() as int) =~= bvs);
            push_str(out, "\n");
            assert(out@ =~= old(out)@ + blame_section(Some(bvs)));
        },
        None => {
            assert(out@ =~= old(out)@ + blame_section(None));
        },
    }
}

/// Renders the report as plain text (`text_report`).
pub fn format(report: &Report) -> (r: String)
    ensures
        r@ == text_report(*report),
{
    let mut out: Vec<char> = Vec::new();
    push_preamble(&mut out, report);
    push_author_section(&mut out, &report.authors);
    push_timeline_section(&mut out, &report.timeline);
    push_blame_section(&mut out, &report.blame);
    if report.metrics_enabled {
        push_str(&mut out, "--- Metrics ---\n");
        push_str(&mut out, "Cyclomatic complexity feature is active.\n");
    }
    assert(out@ =~= text_report(*report));
    string_of(&out)
}

/// Each optional section is empty exactly when its part is absent.
proof fn lemma_sections_present(t: Option<Seq<PeriodView>>, b: Option<Seq<BlameView>>, on: bool)
    ensures
        t is None ==> timeline_section(t).len() == 0,
        t is Some ==> timeline_section(t).len() > 0,
        b is None ==> blame_section(b).len() == 0,
        b is Some ==> blame_section(b).len() > 0,
        metrics_section(on).len() > 0 <==> on,
{
    reveal_strlit("--- Timeline ---\n");
    reveal_strlit("--- Blame Responsibilities ---\n");
    reveal_strlit("--- Metrics ---\n");
}

/// The text report's layout: the preamble, then the author table (header, rule, one row per
/// author in the order given, each row added after the rows before it, a blank line), then the timeline table, the ownership blocks
/// and the metrics note, each present exactly when the report holds that part, in that order.
#[verifier::rlimit(30)]
pub proof fn law_text_layout(r: Report)
    ensures
        text_report(r) == preamble(r) + author_header() + author_rule() + author_rows(views(r.authors@)) + "\n"@
            + timeline_section(match r.timeline { Some(t) => Some(views(t@)), None => None })
            + blame_section(match r.blame { Some(b) => Some(views(b@)), None => None })
            + metrics_section(r.metrics_enabled),
        r.timeline is None ==> timeline_section(match r.timeline { Some(t) => Some(views(t@)), None => None }).len() == 0,
        r.timeline is Some ==> timeline_section(match r.timeline { Some(t) => Some(views(t@)), None => None }).len() > 0,
        r.blame is None ==> blame_section(match r.blame { Some(b) => Some(views(b@)), None => None }).len() == 0,
        r.blame is Some ==> blame_section(match r.blame { Some(b) => Some(views(b@)), None => None }).len() > 0,
        metrics_section(r.metrics_enabled).len() > 0 <==> r.metrics_enabled,
        forall|k: int| 0 <= k < r.authors@.len() ==> author_rows(views(r.authors@).take(k + 1)) == author_rows(views(r.authors@).take(k))
            + author_row(r.authors@[k]@),
{
    lemma_sections_present(
        match r.timeline { Some(t) => Some(views(t@)), None => None },
        match r.blame { Some(b) => Some(views(b@)), None => None },
        r.metrics_enabled,
    );
    let s = views(r.authors@);
    assert(author_section(s) == author_header() + author_rule() + author_rows(s) + "\n"@);
    assert forall|k: int| 0 <= k < r.authors@.len() implies author_rows(#[trigger] s.take(k + 1)) == author_rows(s.take(k))
        + author_row(r.authors@[k]@) by {
        assert(s.take(k + 1).drop_last() =~= s.take(k));
        assert(s.take(k + 1).last() == r.authors@[k]@);
    }
}

} // verus!
