//! What holds of every report, whatever the repository: how its rankings are ordered, that
//! ranking never adds or drops an entry, and what the timeline's periods count.
use vstd::prelude::*;
use crate::analysis::{final_authors, final_files, AggView, AuthorStats, FileStats, FileStatsView};
use crate::blame::{merge_all, owner_final, owner_top, ownership, BlameStats, BlameView, FileBlame};
use crate::health::{largest, tree_files, BySize, LARGE_FILES_SHOWN};
use crate::seqs::{lemma_pos_of, pos_of, lemma_stable_sort_contains, lemma_stable_sort_no_duplicates, lemma_stable_sort_permutes, lemma_stable_sort_ranked, ranked, stable_sort, Sortable};
use crate::strutil::{lemma_seq_lt_total, seq_lt};
use crate::timeline::{
    commit_period, commits_in, deletions_in, insertions_in, lemma_period_totals, lemma_periods_distinct, period_names,
    periods_of, timeline_of, TimelinePeriod,
};
use crate::analysis::CommitView;

verus! {

/// The entries of a ranked sequence stand in ranking order.
proof fn lemma_ranked_at<T: Sortable>(s: Seq<T::V>, i: int, j: int)
    requires
        ranked::<T>(s),
        0 <= i < j < s.len(),
    ensures
        !T::goes_before(s[j], s[i]),
{
}

/// Reported authors stand in order of their commits, most first.
pub proof fn law_authors_ranked(m: AggView)
    ensures
        forall|i: int, j: int|
            0 <= i < j < final_authors(m).len() ==> #[trigger] final_authors(m)[i].commits >= #[trigger] final_authors(m)[j].commits,
{
    let s = final_authors(m);
    lemma_stable_sort_ranked::<AuthorStats>(m.authors.map_values(|a: crate::analysis::AuthorView| crate::analysis::author_final(a)));
    assert forall|i: int, j: int| 0 <= i < j < s.len() implies #[trigger] s[i].commits >= #[trigger] s[j].commits by {
        lemma_ranked_at::<AuthorStats>(s, i, j);
    }
}

/// Reported files stand in order of the commits that changed them, most first.
pub proof fn law_files_ranked(m: AggView)
    ensures
        forall|i: int, j: int|
            0 <= i < j < final_files(m).len() ==> #[trigger] final_files(m)[i].commits >= #[trigger] final_files(m)[j].commits,
{
    let s = final_files(m);
    lemma_stable_sort_ranked::<FileStats>(m.files.map_values(|f: FileStatsView| crate::analysis::file_final(f)));
    assert forall|i: int, j: int| 0 <= i < j < s.len() implies #[trigger] s[i].commits >= #[trigger] s[j].commits by {
        lemma_ranked_at::<FileStats>(s, i, j);
    }
}

/// The largest files of a tree listing are at most `LARGE_FILES_SHOWN`, stand in order of
/// size, largest first, and are each a file that the listing names.
pub proof fn law_large_files_ranked(ls: Seq<Seq<char>>)
    ensures
        largest(ls).len() <= LARGE_FILES_SHOWN,
        forall|i: int, j: int|
            0 <= i < j < largest(ls).len() ==> #[trigger] largest(ls)[i].total_lines >= #[trigger] largest(ls)[j].total_lines,
        forall|i: int| 0 <= i < largest(ls).len() ==> tree_files(ls).contains(#[trigger] largest(ls)[i]),
{
    let full = stable_sort::<BySize>(tree_files(ls));
    let s = largest(ls);
    lemma_stable_sort_ranked::<BySize>(tree_files(ls));
    assert forall|i: int, j: int| 0 <= i < j < s.len() implies #[trigger] s[i].total_lines >= #[trigger] s[j].total_lines by {
        assert(s[i] == full[i] && s[j] == full[j]);
        lemma_ranked_at::<BySize>(full, i, j);
    }
    assert forall|i: int| 0 <= i < s.len() implies tree_files(ls).contains(#[trigger] s[i]) by {
        assert(s[i] == full[i]);
        assert(full.contains(full[i]));
        lemma_stable_sort_contains::<BySize>(tree_files(ls), s[i]);
    }
}

/// Owners stand in order of their lines, most first; each lists at most ten files, most
/// lines first.
pub proof fn law_owners_ranked(rs: Seq<(Seq<char>, Seq<BlameView>)>)
    ensures
        forall|i: int, j: int|
            0 <= i < j < ownership(rs).len() ==> #[trigger] ownership(rs)[i].lines >= #[trigger] ownership(rs)[j].lines,
        forall|i: int| 0 <= i < ownership(rs).len() ==> (#[trigger] ownership(rs)[i]).top_files.len() <= 10,
        forall|i: int, a: int, b: int|
            0 <= i < ownership(rs).len() && 0 <= a < b < ownership(rs)[i].top_files.len()
                ==> #[trigger] ownership(rs)[i].top_files[a].lines >= #[trigger] ownership(rs)[i].top_files[b].lines,
{
    let pre = merge_all(rs).map_values(|a: BlameView| owner_final(a));
    let s = ownership(rs);
    lemma_stable_sort_ranked::<BlameStats>(pre);
    assert forall|i: int, j: int| 0 <= i < j < s.len() implies #[trigger] s[i].lines >= #[trigger] s[j].lines by {
        lemma_ranked_at::<BlameStats>(s, i, j);
    }
    assert forall|i: int| 0 <= i < s.len() implies (#[trigger] s[i]).top_files.len() <= 10
        && (forall|a: int, b: int| 0 <= a < b < s[i].top_files.len() ==> #[trigger] s[i].top_files[a].lines >= #[trigger] s[i].top_files[b].lines) by {
        lemma_stable_sort_contains::<BlameStats>(pre, s[i]);
        assert(s.contains(s[i]));
        let k = choose|k: int| 0 <= k < pre.len() && pre[k] == s[i];
        let acc = merge_all(rs)[k];
        let sorted = stable_sort::<FileBlame>(acc.top_files);
        lemma_stable_sort_ranked::<FileBlame>(acc.top_files);
        assert(s[i].top_files == owner_top(acc));
        assert forall|a: int, b: int| 0 <= a < b < s[i].top_files.len() implies #[trigger] s[i].top_files[a].lines >= #[trigger] s[i].top_files[b].lines by {
            assert(s[i].top_files[a] == sorted[a] && s[i].top_files[b] == sorted[b]);
            lemma_ranked_at::<FileBlame>(sorted, a, b);
        }
    }
}

/// Timeline periods stand in strictly ascending order of their names: no name is repeated.
pub proof fn law_timeline_ordered(cs: Seq<CommitView>, use_weeks: bool)
    ensures
        forall|i: int, j: int|
            0 <= i < j < timeline_of(cs, use_weeks).len()
                ==> seq_lt(#[trigger] timeline_of(cs, use_weeks)[i].period_name, #[trigger] timeline_of(cs, use_weeks)[j].period_name),
{
    let pre = periods_of(cs, use_weeks);
    let s = timeline_of(cs, use_weeks);
    lemma_stable_sort_ranked::<TimelinePeriod>(pre);
    lemma_periods_distinct(cs, use_weeks);
    assert(pre.no_duplicates()) by {
        assert forall|a: int, b: int| 0 <= a < pre.len() && 0 <= b < pre.len() && a != b implies pre[a] != pre[b] by {
            assert(period_names(pre)[a] == pre[a].period_name && period_names(pre)[b] == pre[b].period_name);
        }
    }
    lemma_stable_sort_no_duplicates::<TimelinePeriod>(pre);
    assert forall|i: int, j: int| 0 <= i < j < s.len() implies seq_lt(#[trigger] s[i].period_name, #[trigger] s[j].period_name) by {
        lemma_ranked_at::<TimelinePeriod>(s, i, j);
        assert(s[i] != s[j]);
        assert(s.contains(s[i]) && s.contains(s[j]));
        lemma_stable_sort_contains::<TimelinePeriod>(pre, s[i]);
        lemma_stable_sort_contains::<TimelinePeriod>(pre, s[j]);
        let ki = choose|k: int| 0 <= k < pre.len() && pre[k] == s[i];
        let kj = choose|k: int| 0 <= k < pre.len() && pre[k] == s[j];
        assert(ki != kj);
        assert(period_names(pre)[ki] == s[i].period_name && period_names(pre)[kj] == s[j].period_name);
        lemma_seq_lt_total(s[i].period_name, s[j].period_name);
    }
}

/// Every timeline period carries the totals of exactly the commits dated within it (their
/// number, insertions and deletions), and holds at least one; every commit with a
/// representable date falls in a listed period.
pub proof fn law_timeline_totals(cs: Seq<CommitView>, use_weeks: bool)
    ensures
        forall|i: int| 0 <= i < timeline_of(cs, use_weeks).len() ==> {
            let p = #[trigger] timeline_of(cs, use_weeks)[i];
            &&& p.commits == commits_in(cs, p.period_name, use_weeks)
            &&& p.insertions == insertions_in(cs, p.period_name, use_weeks)
            &&& p.deletions == deletions_in(cs, p.period_name, use_weeks)
            &&& p.commits > 0
        },
        forall|j: int| 0 <= j < cs.len() && (#[trigger] commit_period(cs[j], use_weeks)) is Some
            ==> period_names(timeline_of(cs, use_weeks)).contains(commit_period(cs[j], use_weeks)->0),
{
    let pre = periods_of(cs, use_weeks);
    let s = timeline_of(cs, use_weeks);
    let ns = period_names(pre);
    lemma_periods_distinct(cs, use_weeks);
    assert forall|i: int| 0 <= i < s.len() implies {
        let p = #[trigger] s[i];
        &&& p.commits == commits_in(cs, p.period_name, use_weeks)
        &&& p.insertions == insertions_in(cs, p.period_name, use_weeks)
        &&& p.deletions == deletions_in(cs, p.period_name, use_weeks)
        &&& p.commits > 0
    } by {
        assert(s.contains(s[i]));
        lemma_stable_sort_contains::<TimelinePeriod>(pre, s[i]);
        let k = choose|k: int| 0 <= k < pre.len() && pre[k] == s[i];
        let key = pre[k].period_name;
        lemma_period_totals(cs, use_weeks, key);
        assert(ns[k] == key);
        lemma_pos_of(ns, key);
        let kk = pos_of(ns, key);
        assert(ns[kk] == key);
        assert(kk == k);
    }
    assert forall|j: int| 0 <= j < cs.len() && (#[trigger] commit_period(cs[j], use_weeks)) is Some
        implies period_names(s).contains(commit_period(cs[j], use_weeks)->0) by {
        let key = commit_period(cs[j], use_weeks)->0;
        lemma_commits_in_member(cs, use_weeks, j);
        lemma_period_totals(cs, use_weeks, key);
        lemma_pos_of(ns, key);
        let k = pos_of(ns, key);
        assert(ns[k] == pre[k].period_name);
        assert(pre.contains(pre[k]));
        lemma_stable_sort_contains::<TimelinePeriod>(pre, pre[k]);
        let i = choose|i: int| 0 <= i < s.len() && s[i] == pre[k];
        assert(period_names(s)[i] == key);
    }
}

/// A commit dated within a period counts in it.
proof fn lemma_commits_in_member(cs: Seq<CommitView>, use_weeks: bool, j: int)
    requires
        0 <= j < cs.len(),
        commit_period(cs[j], use_weeks) is Some,
    ensures
        commits_in(cs, commit_period(cs[j], use_weeks)->0, use_weeks) > 0,
    decreases cs.len(),
{
    if j < cs.len() - 1 {
        assert(cs.drop_last()[j] == cs[j]);
        lemma_commits_in_member(cs.drop_last(), use_weeks, j);
    }
}

/// Ranking reorders and nothing more: the ranking of `s` holds each entry of `s` exactly as
/// often as `s` does.
pub proof fn law_ranking_permutes<T: Sortable>(s: Seq<T::V>)
    ensures
        stable_sort::<T>(s).to_multiset() == s.to_multiset(),
        stable_sort::<T>(s).len() == s.len(),
{
    lemma_stable_sort_permutes::<T>(s);
}

} // verus!
