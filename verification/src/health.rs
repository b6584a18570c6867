//! Repository health: the branches and their staleness, the largest tracked files, and the
//! sizes and line counts that `git` reports for the files of a report.
use vstd::prelude::*;
use crate::analysis::{file_paths, BranchInfo, BranchView, FileStats, FileStatsView, HealthView, RepoHealth};
use crate::dates::{format_short_day, utc_short_text};
use crate::seqs::{lemma_pos_of_is, pos_of, stable_sort, top_k_vec, truncated, views, Sortable};
use crate::strutil::{
    chars_eq, chars_of, lines, parse_u32, parse_u32_chars, parse_u64, parse_u64_chars, split_lines, split_words,
    split_ws, string_of,
};
use crate::textops::{contains_text, join_from, join_with, split_on, split_on_chars, text_contains};

verus! {

/// Seconds in ninety days: a branch whose last commit is older than this is stale.
pub const STALE_AFTER_SECS: u64 = 7776000;

/// How many of the largest files the health report lists.
pub const LARGE_FILES_SHOWN: usize = 10;

// ---------------------------------------------------------------- branches

/// The time field of a branch line: its number, or 0 when it is not one.
pub open spec fn stamp_of(s: Seq<char>) -> u64 {
    match parse_u64(s) {
        Some(v) => v,
        None => 0,
    }
}

/// How the last commit date of a branch reads: `chrono`'s `%b %d, %Y` of the instant, or
/// `Unknown` when `chrono` cannot represent it.
pub open spec fn date_label(ts: u64) -> Seq<char> {
    match utc_short_text(ts as i64) {
        Some(t) => t,
        None => "Unknown"@,
    }
}

/// The branch that the fields `name|unix time|author` of a `for-each-ref` line describe,
/// judged at the instant `now`.
pub open spec fn branch_entry(parts: Seq<Seq<char>>, now: u64) -> BranchView {
    BranchView {
        name: parts[0],
        last_commit_date: date_label(stamp_of(parts[1])),
        last_author: parts[2],
        is_stale: now - stamp_of(parts[1]) > STALE_AFTER_SECS,
    }
}

/// The branches that the lines `ls` describe, in order: one for each line of at least three
/// `|`-separated fields.
pub open spec fn branch_entries(ls: Seq<Seq<char>>, now: u64) -> Seq<BranchView>
    decreases ls.len(),
{
    if ls.len() == 0 {
        Seq::empty()
    } else {
        let rest = branch_entries(ls.drop_last(), now);
        let parts = split_on(ls.last(), '|');
        if parts.len() >= 3 {
            rest.push(branch_entry(parts, now))
        } else {
            rest
        }
    }
}

/// Whether no branch line carries a time later than `now` (the age of each branch is
/// `now` minus its time, which must not fall below zero).
pub open spec fn branch_times_fit(ls: Seq<Seq<char>>, now: u64) -> bool {
    forall|i: int|
        0 <= i < ls.len() && (#[trigger] split_on(ls[i], '|')).len() >= 3 ==> stamp_of(split_on(ls[i], '|')[1]) <= now
}

/// How many of the branches `bs` are stale.
pub open spec fn stale_count(bs: Seq<BranchView>) -> nat
    decreases bs.len(),
{
    if bs.len() == 0 {
        0
    } else {
        stale_count(bs.drop_last()) + if bs.last().is_stale { 1nat } else { 0nat }
    }
}

/// The time field as a number (`stamp_of`).
fn stamp_of_chars(s: &[char]) -> (r: u64)
    ensures
        r == stamp_of(s@),
{
    match parse_u64_chars(s) {
        Some(v) => v,
        None => 0,
    }
}

/// The last commit date of a branch as it reads (`date_label`).
fn date_label_of(ts: u64) -> (r: String)
    ensures
        r@ == date_label(ts),
{
    match format_short_day(ts as i64) {
        Some(t) => t,
        None => "Unknown".to_string(),
    }
}

/// Whether the branch lines of `output` carry no time later than `now`.
pub fn branch_times_within(output: &str, now: u64) -> (r: bool)
    ensures
        r == branch_times_fit(lines(output@), now),
{
    let chars = chars_of(output);
    let ls = split_lines(&chars);
    let ghost all = lines(output@);
    let mut i: usize = 0;
    while i < ls.len()
        invariant
            i <= ls@.len() == all.len(),
            all == lines(output@),
            forall|k: int| 0 <= k < ls@.len() ==> #[trigger] ls@[k]@ == all[k],
            forall|k: int|
                0 <= k < i && (#[trigger] split_on(all[k], '|')).len() >= 3 ==> stamp_of(split_on(all[k], '|')[1]) <= now,
        decreases ls@.len() - i,
    {
        let parts = split_on_chars(&ls[i], '|');
        assert(views(parts@) == split_on(all[i as int], '|'));
        if parts.len() >= 3 {
            assert(parts@[1]@ == views(parts@)[1]);
            if stamp_of_chars(&parts[1]) > now {
                return false;
            }
        }
        i = i + 1;
    }
    true
}

/// The branches listed in the output of
/// `git for-each-ref --format=%(refname:short)|%(committerdate:unix)|%(authorname)`, judged
/// at the UNIX instant `now`, with how many of them are stale.
pub fn read_branches(output: &str, now: u64) -> (r: (Vec<BranchInfo>, usize))
    requires
        branch_times_fit(lines(output@), now),
    ensures
        views(r.0@) == branch_entries(lines(output@), now),
        r.1 == stale_count(branch_entries(lines(output@), now)),
{
    let chars = chars_of(output);
    let ls = split_lines(&chars);
    let ghost all = lines(output@);
    let mut out: Vec<BranchInfo> = Vec::new();
    let mut stale: usize = 0;
    let mut i: usize = 0;
    assert(all.take(0) =~= Seq::<Seq<char>>::empty());
    assert(views(out@) =~= Seq::<BranchView>::empty());
    while i < ls.len()
        invariant
            i <= ls@.len() == all.len(),
            all == lines(output@),
            branch_times_fit(all, now),
            forall|k: int| 0 <= k < ls@.len() ==> #[trigger] ls@[k]@ == all[k],
            views(out@) == branch_entries(all.take(i as int), now),
            stale == stale_count(views(out@)),
            stale <= out@.len(),
        decreases ls@.len() - i,
    {
        let parts = split_on_chars(&ls[i], '|');
        let ghost line = all[i as int];
        assert(views(parts@) == split_on(line, '|'));
        assert(all.take(i + 1).drop_last() =~= all.take(i as int));
        assert(all.take(i + 1).last() == line);
        if parts.len() >= 3 {
            assert(parts@[0]@ == views(parts@)[0]);
            assert(parts@[1]@ == views(parts@)[1]);
            assert(parts@[2]@ == views(parts@)[2]);
            let ts = stamp_of_chars(&parts[1]);
            assert(ts <= now);
            let is_stale = now - ts > STALE_AFTER_SECS;
            let info = BranchInfo {
                name: string_of(&parts[0]),
                last_commit_date: date_label_of(ts),
                last_author: string_of(&parts[2]),
                is_stale,
            };
            let ghost before = views(out@);
            out.push(info);
            assert(views(out@) =~= before.push(branch_entry(split_on(line, '|'), now)));
            assert(views(out@).drop_last() =~= before);
            if is_stale {
                assert(stale < out.len());
                stale = stale + 1;
            }
        }
        i = i + 1;
    }
    assert(all.take(ls@.len() as int) =~= all);
    (out, stale)
}

// ---------------------------------------------------------------- tracked files

/// A numeric field of `git` output: its number, or 0 when it is not one (a `-`, say).
pub open spec fn count_of(s: Seq<char>) -> u32 {
    match parse_u32(s) {
        Some(v) => v,
        None => 0,
    }
}

/// The path on a line of `git ls-tree -r -l` (mode, type, object, size, path) split into
/// words: the words from the fifth on, joined by single spaces.
pub open spec fn tree_path(ws: Seq<Seq<char>>) -> Seq<char> {
    join_with(ws.skip(4), ' ')
}

/// A file as a line of `git ls-tree -r -l` lists it, split into at least five words: only
/// its path and its size (in `total_lines`) are known.
pub open spec fn tree_file(ws: Seq<Seq<char>>) -> FileStatsView {
    FileStatsView {
        path: tree_path(ws),
        commits: 0,
        insertions: 0,
        deletions: 0,
        total_lines: count_of(ws[3]) as nat,
        loc: 0,
        last_updated: Seq::empty(),
    }
}

/// The files that the lines `ls` list, in order: one for each line of at least five words.
pub open spec fn tree_files(ls: Seq<Seq<char>>) -> Seq<FileStatsView>
    decreases ls.len(),
{
    if ls.len() == 0 {
        Seq::empty()
    } else {
        let rest = tree_files(ls.drop_last());
        let ws = split_ws(ls.last());
        if ws.len() >= 5 {
            rest.push(tree_file(ws))
        } else {
            rest
        }
    }
}

/// A file ranked by its size: larger files first.
pub struct BySize(pub FileStats);

impl View for BySize {
    type V = FileStatsView;

    open spec fn view(&self) -> FileStatsView {
        self.0@
    }
}

impl Sortable for BySize {
    open spec fn goes_before(a: FileStatsView, b: FileStatsView) -> bool {
        a.total_lines > b.total_lines
    }

    proof fn goes_before_strict(a: FileStatsView, b: FileStatsView, c: FileStatsView) {
    }

    fn goes_before_exec(&self, other: &Self) -> (r: bool) {
        self.0.total_lines > other.0.total_lines
    }
}

/// The largest files that the lines `ls` list: sorted by size, larger first and files of
/// one size in the order listed, and cut to `LARGE_FILES_SHOWN`.
pub open spec fn largest(ls: Seq<Seq<char>>) -> Seq<FileStatsView> {
    truncated(stable_sort::<BySize>(tree_files(ls)), LARGE_FILES_SHOWN as nat)
}

/// Numeric field (`count_of`).
fn count_of_chars(s: &[char]) -> (r: u32)
    ensures
        r == count_of(s@),
{
    match parse_u32_chars(s) {
        Some(v) => v,
        None => 0,
    }
}

/// The path on a line split into at least five words (`tree_path`).
fn tree_path_of(ws: &Vec<Vec<char>>) -> (r: Vec<char>)
    requires
        ws@.len() >= 5,
    ensures
        r@ == tree_path(views(ws@)),
{
    join_from(ws, 4, ' ')
}

/// The files listed in the output of `git ls-tree -r -l HEAD` (`tree_files` of its lines).
pub fn read_tree_files(output: &str) -> (r: Vec<FileStats>)
    ensures
        views(r@) == tree_files(lines(output@)),
{
    let chars = chars_of(output);
    let ls = split_lines(&chars);
    let ghost all = lines(output@);
    let mut out: Vec<FileStats> = Vec::new();
    let mut i: usize = 0;
    assert(all.take(0) =~= Seq::<Seq<char>>::empty());
    assert(views(out@) =~= Seq::<FileStatsView>::empty());
    while i < ls.len()
        invariant
            i <= ls@.len() == all.len(),
            all == lines(output@),
            forall|k: int| 0 <= k < ls@.len() ==> #[trigger] ls@[k]@ == all[k],
            views(out@) == tree_files(all.take(i as int)),
        decreases ls@.len() - i,
    {
        let ws = split_words(&ls[i]);
        let ghost line = all[i as int];
        assert(views(ws@) =~= split_ws(line));
        assert(all.take(i + 1).drop_last() =~= all.take(i as int));
        assert(all.take(i + 1).last() == line);
        if ws.len() >= 5 {
            assert(ws@[3]@ == views(ws@)[3]);
            let path = tree_path_of(&ws);
            let f = FileStats {
                path: string_of(&path),
                commits: 0,
                insertions: 0,
                deletions: 0,
                total_lines: count_of_chars(&ws[3]),
                loc: 0,
                last_updated: String::new(),
            };
            let ghost before = views(out@);
            out.push(f);
            assert(views(out@) =~= before.push(tree_file(split_ws(line))));
        }
        i = i + 1;
    }
    assert(all.take(ls@.len() as int) =~= all);
    out
}

/// The largest files listed in the output of `git ls-tree -r -l HEAD` (`largest`).
pub fn largest_files(output: &str) -> (r: Vec<FileStats>)
    ensures
        views(r@) == largest(lines(output@)),
{
    let files = read_tree_files(output);
    let ghost orig = views(files@);
    let mut src = files;
    let mut ranked: Vec<BySize> = Vec::new();
    while src.len() > 0
        invariant
            views(ranked@) + views(src@) == orig,
        decreases src@.len(),
    {
        let ghost before = views(src@);
        let f = src.remove(0);
        assert(views(src@) =~= before.drop_first());
        let ghost r0 = views(ranked@);
        ranked.push(BySize(f));
        assert(views(ranked@) =~= r0.push(before[0]));
        assert(views(ranked@) + views(src@) =~= r0 + before);
    }
    assert(views(src@) =~= Seq::<FileStatsView>::empty());
    assert(views(ranked@) =~= orig);
    let mut top = top_k_vec(ranked, LARGE_FILES_SHOWN);
    let ghost want = views(top@);
    let mut out: Vec<FileStats> = Vec::new();
    while top.len() > 0
        invariant
            views(out@) + views(top@) == want,
        decreases top@.len(),
    {
        let ghost before = views(top@);
        let b = top.remove(0);
        assert(views(top@) =~= before.drop_first());
        let ghost o0 = views(out@);
        out.push(b.0);
        assert(views(out@) =~= o0.push(before[0]));
        assert(views(out@) + views(top@) =~= o0 + before);
    }
    assert(views(top@) =~= Seq::<FileStatsView>::empty());
    assert(views(out@) =~= want);
    out
}

// ---------------------------------------------------------------- pull requests

/// Whether a commit subject marks a merged pull request: it contains `Merge pull request #`.
pub open spec fn is_pull_request(subject: Seq<char>) -> bool {
    contains_text(subject, "Merge pull request #"@)
}

/// Whether a commit with subject `subject` counts as a pull request (`is_pull_request`).
pub fn counts_as_pull_request(subject: &str) -> (r: bool)
    ensures
        r == is_pull_request(subject@),
{
    text_contains(&chars_of(subject), &chars_of("Merge pull request #"))
}

// ---------------------------------------------------------------- the health report

/// The health that the outputs of the branch listing and of the tree listing show, judged at
/// the UNIX instant `now` (an output that could not be had counts as empty). No pull
/// requests are counted here.
pub open spec fn health_of(branch_output: Option<Seq<char>>, tree_output: Option<Seq<char>>, now: u64) -> HealthView {
    let bs = match branch_output {
        Some(o) => branch_entries(lines(o), now),
        None => Seq::empty(),
    };
    HealthView {
        active_branches: bs,
        stale_branches_count: stale_count(bs),
        estimated_prs_count: 0,
        large_files: match tree_output {
            Some(o) => largest(lines(o)),
            None => Seq::empty(),
        },
    }
}

/// Whether a branch listing's times all lie no later than `now` (always, without one).
pub open spec fn health_fits(branch_output: Option<Seq<char>>, now: u64) -> bool {
    match branch_output {
        Some(o) => branch_times_fit(lines(o), now),
        None => true,
    }
}

/// The repository health from the output of the branch listing
/// (`git for-each-ref --format=%(refname:short)|%(committerdate:unix)|%(authorname)
/// refs/heads refs/remotes/origin`) and of `git ls-tree -r -l HEAD`, judged at the UNIX
/// instant `now`.
pub fn compute_repo_health(branch_output: Option<&str>, tree_output: Option<&str>, now: u64) -> (r: RepoHealth)
    requires
        health_fits(
            match branch_output {
                Some(o) => Some(o@),
                None => None,
            },
            now,
        ),
    ensures
        r@ == health_of(
            match branch_output {
                Some(o) => Some(o@),
                None => None,
            },
            match tree_output {
                Some(o) => Some(o@),
                None => None,
            },
            now,
        ),
{
    let (active_branches, stale_branches_count) = match branch_output {
        Some(o) => read_branches(o, now),
        None => {
            let none: Vec<BranchInfo> = Vec::new();
            assert(views(none@) =~= Seq::<BranchView>::empty());
            (none, 0)
        },
    };
    let large_files = match tree_output {
        Some(o) => largest_files(o),
        None => Vec::new(),
    };
    let r = RepoHealth { active_branches, stale_branches_count, estimated_prs_count: 0, large_files };
    assert(r@.large_files =~= health_of(
        match branch_output {
            Some(o) => Some(o@),
            None => None,
        },
        match tree_output {
            Some(o) => Some(o@),
            None => None,
        },
        now,
    ).large_files);
    r
}

// ---------------------------------------------------------------- file sizes and line counts

/// `f` with the size `n`.
pub open spec fn with_size(f: FileStatsView, n: nat) -> FileStatsView {
    FileStatsView {
        path: f.path,
        commits: f.commits,
        insertions: f.insertions,
        deletions: f.deletions,
        total_lines: n,
        loc: f.loc,
        last_updated: f.last_updated,
    }
}

/// `f` with the line count `n`.
pub open spec fn with_loc(f: FileStatsView, n: nat) -> FileStatsView {
    FileStatsView {
        path: f.path,
        commits: f.commits,
        insertions: f.insertions,
        deletions: f.deletions,
        total_lines: f.total_lines,
        loc: n,
        last_updated: f.last_updated,
    }
}

/// The files after a line of `git ls-tree -r -l HEAD`: a line of at least five words sets
/// the size of the first file with its path, if there is one.
pub open spec fn size_step(files: Seq<FileStatsView>, line: Seq<char>) -> Seq<FileStatsView> {
    let ws = split_ws(line);
    if ws.len() >= 5 {
        let k = pos_of(file_paths(files), tree_path(ws));
        if k >= 0 {
            files.update(k, with_size(files[k], count_of(ws[3]) as nat))
        } else {
            files
        }
    } else {
        files
    }
}

/// The files after a line `rev:path:count` of `git grep -c ^ HEAD`: a line of at least three
/// `:`-separated fields sets the line count of the first file with its path, if any.
pub open spec fn loc_step(files: Seq<FileStatsView>, line: Seq<char>) -> Seq<FileStatsView> {
    let parts = split_on(line, ':');
    if parts.len() >= 3 {
        let k = pos_of(file_paths(files), parts[1]);
        if k >= 0 {
            files.update(k, with_loc(files[k], count_of(parts[2]) as nat))
        } else {
            files
        }
    } else {
        files
    }
}

/// The files after the size lines `ls`, in order.
pub open spec fn sizes_fold(files: Seq<FileStatsView>, ls: Seq<Seq<char>>) -> Seq<FileStatsView>
    decreases ls.len(),
{
    if ls.len() == 0 {
        files
    } else {
        size_step(sizes_fold(files, ls.drop_last()), ls.last())
    }
}

/// The files after the line-count lines `ls`, in order.
pub open spec fn locs_fold(files: Seq<FileStatsView>, ls: Seq<Seq<char>>) -> Seq<FileStatsView>
    decreases ls.len(),
{
    if ls.len() == 0 {
        files
    } else {
        loc_step(locs_fold(files, ls.drop_last()), ls.last())
    }
}

/// The files with the sizes of a tree listing and then the line counts of a `grep -c`
/// listing applied (an output that could not be had changes nothing).
pub open spec fn with_metrics(
    files: Seq<FileStatsView>,
    size_output: Option<Seq<char>>,
    loc_output: Option<Seq<char>>,
) -> Seq<FileStatsView> {
    let sized = match size_output {
        Some(o) => sizes_fold(files, lines(o)),
        None => files,
    };
    match loc_output {
        Some(o) => locs_fold(sized, lines(o)),
        None => sized,
    }
}

/// The position of the first file with path `p`, if any.
fn find_path(files: &Vec<FileStats>, p: &[char]) -> (r: Option<usize>)
    ensures
        match r {
            Some(k) => k == pos_of(file_paths(views(files@)), p@) && k < files@.len(),
            None => pos_of(file_paths(views(files@)), p@) < 0,
        },
{
    let ghost ps = file_paths(views(files@));
    let mut j: usize = 0;
    while j < files.len()
        invariant
            j <= files@.len() == ps.len(),
            ps == file_paths(views(files@)),
            forall|m: int| 0 <= m < j ==> ps[m] != p@,
        decreases files@.len() - j,
    {
        assert(ps[j as int] == files@[j as int].path@);
        if chars_eq(&chars_of(files[j].path.as_str()), p) {
            proof {
                lemma_pos_of_is(ps, p@, j as int);
            }
            return Some(j);
        }
        j = j + 1;
    }
    proof {
        lemma_pos_of_is(ps, p@, -1);
    }
    None
}

/// Applies the size lines of a `git ls-tree -r -l HEAD` output (`sizes_fold`).
fn apply_sizes(files: &mut Vec<FileStats>, output: &str)
    ensures
        views(final(files)@) == sizes_fold(views(old(files)@), lines(output@)),
{
    let chars = chars_of(output);
    let ls = split_lines(&chars);
    let ghost all = lines(output@);
    let ghost start = views(files@);
    let mut i: usize = 0;
    assert(all.take(0) =~= Seq::<Seq<char>>::empty());
    while i < ls.len()
        invariant
            i <= ls@.len() == all.len(),
            all == lines(output@),
            forall|k: int| 0 <= k < ls@.len() ==> #[trigger] ls@[k]@ == all[k],
            views(files@) == sizes_fold(start, all.take(i as int)),
        decreases ls@.len() - i,
    {
        let ws = split_words(&ls[i]);
        let ghost line = all[i as int];
        assert(views(ws@) =~= split_ws(line));
        assert(all.take(i + 1).drop_last() =~= all.take(i as int));
        assert(all.take(i + 1).last() == line);
        if ws.len() >= 5 {
            assert(ws@[3]@ == views(ws@)[3]);
            let size = count_of_chars(&ws[3]);
            let path = tree_path_of(&ws);
            match find_path(files, &path) {
                Some(k) => {
                    let ghost before = views(files@);
                    files[k].total_lines = size;
                    assert(views(files@) =~= before.update(k as int, with_size(before[k as int], size as nat)));
                },
                None => {},
            }
        }
        i = i + 1;
    }
    assert(all.take(ls@.len() as int) =~= all);
}

/// Applies the line-count lines of a `git grep -c ^ HEAD` output (`locs_fold`).
fn apply_locs(files: &mut Vec<FileStats>, output: &str)
    ensures
        views(final(files)@) == locs_fold(views(old(files)@), lines(output@)),
{
    let chars = chars_of(output);
    let ls = split_lines(&chars);
    let ghost all = lines(output@);
    let ghost start = views(files@);
    let mut i: usize = 0;
    assert(all.take(0) =~= Seq::<Seq<char>>::empty());
    while i < ls.len()
        invariant
            i <= ls@.len() == all.len(),
            all == lines(output@),
            forall|k: int| 0 <= k < ls@.len() ==> #[trigger] ls@[k]@ == all[k],
            views(files@) == locs_fold(start, all.take(i as int)),
        decreases ls@.len() - i,
    {
        let parts = split_on_chars(&ls[i], ':');
        let ghost line = all[i as int];
        assert(views(parts@) == split_on(line, ':'));
        assert(all.take(i + 1).drop_last() =~= all.take(i as int));
        assert(all.take(i + 1).last() == line);
        if parts.len() >= 3 {
            assert(parts@[1]@ == views(parts@)[1]);
            assert(parts@[2]@ == views(parts@)[2]);
            let count = count_of_chars(&parts[2]);
            match find_path(files, &parts[1]) {
                Some(k) => {
                    let ghost before = views(files@);
                    files[k].loc = count;
                    assert(views(files@) =~= before.update(k as int, with_loc(before[k as int], count as nat)));
                },
                None => {},
            }
        }
        i = i + 1;
    }
    assert(all.take(ls@.len() as int) =~= all);
}

/// Sets the sizes of `file_stats` from the output of `git ls-tree -r -l HEAD` and their
/// line counts from the output of `git grep -c ^ HEAD` (`with_metrics`).
pub fn populate_file_metrics(file_stats: &mut Vec<FileStats>, size_output: Option<&str>, loc_output: Option<&str>)
    ensures
        views(final(file_stats)@) == with_metrics(
            views(old(file_stats)@),
            match size_output {
                Some(o) => Some(o@),
                None => None,
            },
            match loc_output {
                Some(o) => Some(o@),
                None => None,
            },
        ),
{
    match size_output {
        Some(o) => apply_sizes(file_stats, o),
        None => {},
    }
    match loc_output {
        Some(o) => apply_locs(file_stats, o),
        None => {},
    }
}

// ---------------------------------------------------------------- what the metrics keep

/// Whether `b` holds the files of `a`, in order, with the same paths, change counts and dates.
pub open spec fn same_history(a: Seq<FileStatsView>, b: Seq<FileStatsView>) -> bool {
    &&& a.len() == b.len()
    &&& forall|i: int| 0 <= i < a.len() ==> {
        &&& (#[trigger] b[i]).path == a[i].path
        &&& b[i].commits == a[i].commits
        &&& b[i].insertions == a[i].insertions
        &&& b[i].deletions == a[i].deletions
        &&& b[i].last_updated == a[i].last_updated
    }
}

proof fn lemma_sizes_keep(files: Seq<FileStatsView>, ls: Seq<Seq<char>>)
    ensures
        same_history(files, sizes_fold(files, ls)),
        forall|i: int| 0 <= i < files.len() ==> (#[trigger] sizes_fold(files, ls)[i]).loc == files[i].loc,
    decreases ls.len(),
{
    if ls.len() > 0 {
        lemma_sizes_keep(files, ls.drop_last());
        let mid = sizes_fold(files, ls.drop_last());
        let ws = split_ws(ls.last());
        if ws.len() >= 5 {
            let k = pos_of(file_paths(mid), tree_path(ws));
            crate::seqs::lemma_pos_of(file_paths(mid), tree_path(ws));
        }
    }
}

proof fn lemma_locs_keep(files: Seq<FileStatsView>, ls: Seq<Seq<char>>)
    ensures
        same_history(files, locs_fold(files, ls)),
        forall|i: int| 0 <= i < files.len() ==> (#[trigger] locs_fold(files, ls)[i]).total_lines == files[i].total_lines,
    decreases ls.len(),
{
    if ls.len() > 0 {
        lemma_locs_keep(files, ls.drop_last());
        let mid = locs_fold(files, ls.drop_last());
        let parts = split_on(ls.last(), ':');
        if parts.len() >= 3 {
            let k = pos_of(file_paths(mid), parts[1]);
            crate::seqs::lemma_pos_of(file_paths(mid), parts[1]);
        }
    }
}

/// Setting sizes and line counts keeps every file, in order, with its path, its change counts
/// and its date; without a tree listing the sizes stay, and without a line-count listing the
/// line counts stay.
pub proof fn law_metrics_keep_history(
    files: Seq<FileStatsView>,
    size_output: Option<Seq<char>>,
    loc_output: Option<Seq<char>>,
)
    ensures
        same_history(files, with_metrics(files, size_output, loc_output)),
        size_output is None ==> forall|i: int| 0 <= i < files.len()
            ==> (#[trigger] with_metrics(files, size_output, loc_output)[i]).total_lines == files[i].total_lines,
        loc_output is None ==> forall|i: int| 0 <= i < files.len()
            ==> (#[trigger] with_metrics(files, size_output, loc_output)[i]).loc == files[i].loc,
{
    let sized = match size_output {
        Some(o) => sizes_fold(files, lines(o)),
        None => files,
    };
    match size_output {
        Some(o) => lemma_sizes_keep(files, lines(o)),
        None => {},
    }
    match loc_output {
        Some(o) => lemma_locs_keep(sized, lines(o)),
        None => {},
    }
}

/// The stale count is the number of reported branches that are stale (each judged by
/// `branch_entry`: last commit more than ninety days before the report's instant).
pub proof fn law_stale_count(ls: Seq<Seq<char>>, now: u64)
    ensures
        stale_count(branch_entries(ls, now)) == branch_entries(ls, now).filter(|b: BranchView| b.is_stale).len(),
        stale_count(branch_entries(ls, now)) <= branch_entries(ls, now).len(),
    decreases ls.len(),
{
    lemma_stale_count_filter(branch_entries(ls, now));
}

proof fn lemma_stale_count_filter(bs: Seq<BranchView>)
    ensures
        stale_count(bs) == bs.filter(|b: BranchView| b.is_stale).len(),
        stale_count(bs) <= bs.len(),
    decreases bs.len(),
{
    reveal_with_fuel(Seq::filter, 1);
    if bs.len() > 0 {
        lemma_stale_count_filter(bs.drop_last());
        assert(bs.drop_last().push(bs.last()) =~= bs);
        bs.drop_last().lemma_filter_push(bs.last(), |b: BranchView| b.is_stale);
    }
}

// ---------------------------------------------------------------- every listed file counts

/// How many of the lines `ls` have at least five whitespace-separated words.
pub open spec fn listed_count(ls: Seq<Seq<char>>) -> nat
    decreases ls.len(),
{
    if ls.len() == 0 {
        0
    } else {
        listed_count(ls.drop_last()) + if split_ws(ls.last()).len() >= 5 { 1nat } else { 0nat }
    }
}

proof fn lemma_tree_files_all(ls: Seq<Seq<char>>)
    ensures
        tree_files(ls).len() == listed_count(ls),
        forall|i: int| 0 <= i < ls.len() && split_ws(ls[i]).len() >= 5 ==> tree_files(ls).contains(tree_file(split_ws(#[trigger] ls[i]))),
    decreases ls.len(),
{
    if ls.len() > 0 {
        let prev = ls.drop_last();
        lemma_tree_files_all(prev);
        let t0 = tree_files(prev);
        let t = tree_files(ls);
        assert forall|i: int| 0 <= i < ls.len() && split_ws(ls[i]).len() >= 5 implies t.contains(tree_file(split_ws(#[trigger] ls[i]))) by {
            if i < prev.len() {
                assert(prev[i] == ls[i]);
                let j = choose|j: int| 0 <= j < t0.len() && t0[j] == tree_file(split_ws(prev[i]));
                assert(t[j] == t0[j]);
            } else {
                assert(t[t.len() - 1] == tree_file(split_ws(ls[i])));
            }
        }
    }
}

/// The tree listing gives one file for every line of at least five words. The health report
/// shows the ten largest of them, or all of them when there are fewer: a listed file that is
/// not shown is no larger than any file that is.
pub proof fn law_tree_lists_every_file(ls: Seq<Seq<char>>)
    ensures
        tree_files(ls).len() == listed_count(ls),
        forall|i: int| 0 <= i < ls.len() && split_ws(ls[i]).len() >= 5 ==> tree_files(ls).contains(tree_file(split_ws(#[trigger] ls[i]))),
        largest(ls).len() == if listed_count(ls) < LARGE_FILES_SHOWN { listed_count(ls) } else { LARGE_FILES_SHOWN as nat },
        forall|i: int| 0 <= i < ls.len() && split_ws(ls[i]).len() >= 5 ==> {
            let f = tree_file(split_ws(#[trigger] ls[i]));
            largest(ls).contains(f) || (largest(ls).len() == LARGE_FILES_SHOWN
                && forall|j: int| 0 <= j < largest(ls).len() ==> (#[trigger] largest(ls)[j]).total_lines >= f.total_lines)
        },
{
    lemma_tree_files_all(ls);
    let files = tree_files(ls);
    let full = stable_sort::<BySize>(files);
    let top = largest(ls);
    crate::seqs::lemma_stable_sort_permutes::<BySize>(files);
    crate::seqs::lemma_stable_sort_ranked::<BySize>(files);
    assert forall|i: int| 0 <= i < ls.len() && split_ws(ls[i]).len() >= 5 implies {
        let f = tree_file(split_ws(#[trigger] ls[i]));
        top.contains(f) || (top.len() == LARGE_FILES_SHOWN
            && forall|j: int| 0 <= j < top.len() ==> (#[trigger] top[j]).total_lines >= f.total_lines)
    } by {
        let f = tree_file(split_ws(ls[i]));
        crate::seqs::lemma_stable_sort_contains::<BySize>(files, f);
        let p = choose|p: int| 0 <= p < full.len() && full[p] == f;
        if p < 10 {
            assert(top[p] == full[p]);
            assert(top.contains(f));
        } else {
            assert forall|j: int| 0 <= j < top.len() implies (#[trigger] top[j]).total_lines >= f.total_lines by {
                assert(top[j] == full[j]);
                assert(!BySize::goes_before(full[p], full[j]));
            }
        }
    }
}

} // verus!
