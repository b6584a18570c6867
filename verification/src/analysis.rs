//! Commit-log parsing and per-author / per-file aggregation.
use vstd::prelude::*;
use crate::config::Config;
use crate::filtering::{excluded_by, path_excluded_by, Filter, FilterType};
use crate::dates::{date_parts, format_day, format_short_day, utc_date_parts, utc_day_text, utc_short_text};
use crate::seqs::{
    indexes, lemma_indexes_pos, lemma_indexes_push, lemma_pos_of, lemma_pos_of_is, lemma_pos_of_push,
    lemma_pos_of_update_same, lemma_push_new, lemma_stable_sort_contains, pos_of, stable_sort, stable_sort_vec, truncated, views, Sortable,
};
use crate::strutil::{
    after_last, after_last_char, chars_lt, chars_of, has_prefix, int_text, lemma_seq_lt_total, lemma_seq_lt_transitive, nat_text, parse_i64,
    parse_i64_chars, parse_u32, parse_u32_chars, push_int, push_nat, seq_lt, split_words, split_ws, splitn,
    splitn_chars, starts_with, string_of, trim, trim_chars,
};
use vstd::hash_map::StringHashMap;

verus! {

/// Represents a change to a specific file in a commit.
#[derive(Debug, Clone)]
pub struct FileChange {
    pub path: String,
    pub insertions: u32,
    pub deletions: u32,
}

/// The mathematical content of a `FileChange`.
pub struct ChangeView {
    pub path: Seq<char>,
    pub insertions: nat,
    pub deletions: nat,
}

impl View for FileChange {
    type V = ChangeView;

    open spec fn view(&self) -> ChangeView {
        ChangeView { path: self.path@, insertions: self.insertions as nat, deletions: self.deletions as nat }
    }
}

impl FileChange {
    /// A copy of this change.
    pub fn duplicate(&self) -> (r: FileChange)
        ensures
            r@ == self@,
    {
        FileChange { path: self.path.clone(), insertions: self.insertions, deletions: self.deletions }
    }
}

/// Represents a single git commit with its metadata and file changes.
#[derive(Debug, Clone)]
pub struct Commit {
    pub hash: String,
    pub author_name: String,
    pub author_email: String,
    pub date: String,
    pub subject: String,
    pub insertions: u32,
    pub deletions: u32,
    pub changes: Vec<FileChange>,
}

/// The mathematical content of a `Commit`.
pub struct CommitView {
    pub hash: Seq<char>,
    pub author_name: Seq<char>,
    pub author_email: Seq<char>,
    pub date: Seq<char>,
    pub subject: Seq<char>,
    pub insertions: nat,
    pub deletions: nat,
    pub changes: Seq<ChangeView>,
}

impl View for Commit {
    type V = CommitView;

    open spec fn view(&self) -> CommitView {
        CommitView {
            hash: self.hash@,
            author_name: self.author_name@,
            author_email: self.author_email@,
            date: self.date@,
            subject: self.subject@,
            insertions: self.insertions as nat,
            deletions: self.deletions as nat,
            changes: self.changes@.map_values(|c: FileChange| c@),
        }
    }
}

/// The view of an optional commit.
pub open spec fn opt_commit_view(o: Option<Commit>) -> Option<CommitView> {
    match o {
        Some(c) => Some(c@),
        None => None,
    }
}

// ---------------------------------------------------------------- the line parser

/// `commit|`, the start of a header line.
pub open spec fn commit_prefix() -> Seq<char> {
    seq!['c', 'o', 'm', 'm', 'i', 't', '|']
}

/// Whether a header's revision, author, e-mail or subject is excluded by `rules`.
pub open spec fn header_excluded(rules: Seq<(FilterType, Seq<char>)>, parts: Seq<Seq<char>>) -> bool {
    ||| excluded_by(rules, parts[1], FilterType::Revision)
    ||| excluded_by(rules, parts[2], FilterType::Author)
    ||| excluded_by(rules, parts[3], FilterType::Email)
    ||| excluded_by(rules, parts[5], FilterType::Message)
}

/// The commit that a header `commit|hash|name|email|date|subject` opens.
pub open spec fn header_commit(parts: Seq<Seq<char>>) -> CommitView {
    CommitView {
        hash: parts[1],
        author_name: parts[2],
        author_email: parts[3],
        date: parts[4],
        subject: parts[5],
        insertions: 0,
        deletions: 0,
        changes: Seq::empty(),
    }
}

/// Whether a path's extension (the text after its last `.`) is among `exts`; every path
/// counts when `exts` is empty.
pub open spec fn extension_ok(exts: Seq<Seq<char>>, path: Seq<char>) -> bool {
    exts.len() == 0 || exts.contains(after_last(path, '.'))
}

/// A numstat count: its value when it reads as a `u32`, else 0 (as for binary files' `-`).
pub open spec fn numstat_count(s: Seq<char>) -> nat {
    match parse_u32(s) {
        Some(v) => v as nat,
        None => 0,
    }
}

/// The state of the line parser: the commit being read, and whether it touched a counted file.
pub type ParseState = (Option<CommitView>, bool);

/// One step of the line parser on `raw` (a line of `git log --numstat` output):
/// the next state and the commit that the line completes, if any.
///
/// A header line starts a new commit (none when it is excluded, or when it has fewer than
/// six `|`-separated fields) and completes the previous one if that touched a counted file.
/// A numstat line `insertions deletions path` of a counted, not excluded file adds to the
/// current commit. Every other line changes nothing.
pub open spec fn parse_step(
    exts: Seq<Seq<char>>,
    rules: Seq<(FilterType, Seq<char>)>,
    st: ParseState,
    raw: Seq<char>,
) -> (ParseState, Option<CommitView>) {
    let line = trim(raw);
    if line.len() == 0 {
        (st, None)
    } else if has_prefix(line, commit_prefix()) {
        let parts = splitn(line, 6, '|');
        let next: ParseState = if parts.len() == 6 {
            if header_excluded(rules, parts) {
                (None, false)
            } else {
                (Some(header_commit(parts)), false)
            }
        } else {
            (None, st.1)
        };
        (next, if st.1 { st.0 } else { None })
    } else {
        match st.0 {
            None => (st, None),
            Some(c) => {
                let parts = split_ws(line);
                if parts.len() >= 3 && extension_ok(exts, parts[2]) && !path_excluded_by(rules, parts[2]) {
                    let ins = numstat_count(parts[0]);
                    let del = numstat_count(parts[1]);
                    let c2 = CommitView {
                        insertions: c.insertions + ins,
                        deletions: c.deletions + del,
                        changes: c.changes.push(ChangeView { path: parts[2], insertions: ins, deletions: del }),
                        ..c
                    };
                    ((Some(c2), true), None)
                } else {
                    (st, None)
                }
            },
        }
    }
}

/// Whether an optional commit's totals fit in `u32`.
pub open spec fn commit_fits(o: Option<CommitView>) -> bool {
    match o {
        Some(c) => c.insertions <= u32::MAX && c.deletions <= u32::MAX,
        None => true,
    }
}

/// What the parser does at the end of input: it completes the current commit if that
/// touched a counted file.
pub open spec fn finish_step(st: ParseState) -> (ParseState, Option<CommitView>) {
    if st.1 {
        ((None, st.1), st.0)
    } else {
        (st, None)
    }
}

/// What one line means to the parser.
enum LineKind {
    Blank,
    Header(Vec<Vec<char>>),
    Change(Vec<char>, u32, u32),
    Other,
}

/// Whether `path` has one of the configured extensions (`extension_ok`).
pub fn extension_counts(config: &Config, path: &[char]) -> (r: bool)
    ensures
        r == extension_ok(config.ext_list(), path@),
{
    let exts = &config.extensions;
    if exts.len() == 0 {
        return true;
    }
    let ext = after_last_char(path, '.');
    let ext_s = string_of(&ext);
    let mut i: usize = 0;
    while i < exts.len()
        invariant
            i <= exts@.len(),
            exts == &config.extensions,
            ext_s@ == after_last(path@, '.'),
            forall|j: int| 0 <= j < i ==> exts@[j]@ != ext_s@,
        decreases exts@.len() - i,
    {
        if exts[i] == ext_s {
            assert(config.ext_list()[i as int] == ext_s@);
            return true;
        }
        i = i + 1;
    }
    assert(!config.ext_list().contains(ext_s@)) by {
        if config.ext_list().contains(ext_s@) {
            let j = choose|j: int| 0 <= j < config.ext_list().len() && config.ext_list()[j] == ext_s@;
            assert(exts@[j]@ == ext_s@);
        }
    }
    false
}

/// Streams `git log --numstat` output line by line into commits.
pub struct CommitParser<'a> {
    config: &'a Config,
    filter: &'a Filter,
    current_commit: Option<Commit>,
    commit_touches_valid_file: bool,
}

impl<'a> CommitParser<'a> {
    /// The extensions that count.
    pub closed spec fn exts(&self) -> Seq<Seq<char>> {
        self.config.ext_list()
    }

    /// The exclusion rules.
    pub closed spec fn rules(&self) -> Seq<(FilterType, Seq<char>)> {
        self.filter@
    }

    /// The parser's state.
    pub closed spec fn state(&self) -> ParseState {
        (opt_commit_view(self.current_commit), self.commit_touches_valid_file)
    }

    /// A parser with no commit under way.
    pub fn new(config: &'a Config, filter: &'a Filter) -> (r: Self)
        ensures
            r.exts() == config.ext_list(),
            r.rules() == filter@,
            r.state() == (None::<CommitView>, false),
    {
        CommitParser { config, filter, current_commit: None, commit_touches_valid_file: false }
    }

    fn classify(&self, raw: &str) -> (r: LineKind)
        ensures
            ({
                let line = trim(raw@);
                match r {
                    LineKind::Blank => line.len() == 0,
                    LineKind::Header(parts) => line.len() > 0 && has_prefix(line, commit_prefix())
                        && parts@.len() == splitn(line, 6, '|').len()
                        && forall|i: int| 0 <= i < parts@.len() ==> #[trigger] parts@[i]@ == splitn(line, 6, '|')[i],
                    LineKind::Change(path, ins, del) => line.len() > 0 && !has_prefix(line, commit_prefix())
                        && split_ws(line).len() >= 3
                        && path@ == split_ws(line)[2]
                        && extension_ok(self.exts(), path@) && !path_excluded_by(self.rules(), path@)
                        && ins as nat == numstat_count(split_ws(line)[0])
                        && del as nat == numstat_count(split_ws(line)[1]),
                    LineKind::Other => line.len() > 0 && !has_prefix(line, commit_prefix())
                        && !(split_ws(line).len() >= 3 && extension_ok(self.exts(), split_ws(line)[2])
                            && !path_excluded_by(self.rules(), split_ws(line)[2])),
                }
            }),
    {
        let raw_chars = chars_of(raw);
        let line = trim_chars(&raw_chars);
        if line.len() == 0 {
            return LineKind::Blank;
        }
        let prefix = ['c', 'o', 'm', 'm', 'i', 't', '|'];
        assert(prefix@ =~= commit_prefix());
        if starts_with(&line, &prefix) {
            return LineKind::Header(splitn_chars(&line, 6, '|'));
        }
        let parts = split_words(&line);
        if parts.len() >= 3 {
            let path = &parts[2];
            let path_s = string_of(path);
            if extension_counts(self.config, path) && !self.filter.should_exclude(path_s.as_str()) {
                let ins = match parse_u32_chars(&parts[0]) {
                    Some(v) => v,
                    None => 0,
                };
                let del = match parse_u32_chars(&parts[1]) {
                    Some(v) => v,
                    None => 0,
                };
                return LineKind::Change(path.clone(), ins, del);
            }
        }
        LineKind::Other
    }

    /// Whether `parse_line` can take `line` without a count overflowing `u32`.
    pub fn can_parse_line(&self, line: &str) -> (r: bool)
        ensures
            r == commit_fits(parse_step(self.exts(), self.rules(), self.state(), line@).0.0),
    {
        match self.classify(line) {
            LineKind::Change(_, ins, del) => match &self.current_commit {
                Some(c) => (c.insertions as u64 + ins as u64 <= 0xFFFF_FFFF) && (c.deletions as u64 + del as u64 <= 0xFFFF_FFFF),
                None => true,
            },
            _ => true,
        }
    }

    /// Processes a single line of git log output.
    /// Returns `Some(Commit)` if a commit was just finalized.
    pub fn parse_line(&mut self, line: &str) -> (r: Option<Commit>)
        requires
            commit_fits(parse_step(old(self).exts(), old(self).rules(), old(self).state(), line@).0.0),
        ensures
            final(self).exts() == old(self).exts(),
            final(self).rules() == old(self).rules(),
            final(self).state() == parse_step(old(self).exts(), old(self).rules(), old(self).state(), line@).0,
            opt_commit_view(r) == parse_step(old(self).exts(), old(self).rules(), old(self).state(), line@).1,
    {
        match self.classify(line) {
            LineKind::Blank => None,
            LineKind::Header(parts) => {
                let previous = self.current_commit.take();
                let touched = self.commit_touches_valid_file;
                if parts.len() == 6 {
                    let hash = string_of(&parts[1]);
                    let author_name = string_of(&parts[2]);
                    let author_email = string_of(&parts[3]);
                    let date = string_of(&parts[4]);
                    let subject = string_of(&parts[5]);
                    if self.filter.is_excluded(hash.as_str(), FilterType::Revision)
                        || self.filter.is_excluded(author_name.as_str(), FilterType::Author)
                        || self.filter.is_excluded(author_email.as_str(), FilterType::Email)
                        || self.filter.is_excluded(subject.as_str(), FilterType::Message) {
                        self.current_commit = None;
                        self.commit_touches_valid_file = false;
                    } else {
                        let c = Commit {
                            hash,
                            author_name,
                            author_email,
                            date,
                            subject,
                            insertions: 0,
                            deletions: 0,
                            changes: Vec::new(),
                        };
                        assert(c@.changes =~= Seq::<ChangeView>::empty());
                        self.current_commit = Some(c);
                        self.commit_touches_valid_file = false;
                    }
                }
                if touched {
                    return previous;
                }
                None
            },
            LineKind::Change(path, ins, del) => {
                match self.current_commit.take() {
                    Some(mut commit) => {
                        self.commit_touches_valid_file = true;
                        commit.insertions = commit.insertions + ins;
                        commit.deletions = commit.deletions + del;
                        let ghost before = commit.changes@;
                        commit.changes.push(FileChange { path: string_of(&path), insertions: ins, deletions: del });
                        assert(commit.changes@.map_values(|c: FileChange| c@) =~= before.map_values(|c: FileChange| c@).push(
                            ChangeView { path: path@, insertions: ins as nat, deletions: del as nat }));
                        self.current_commit = Some(commit);
                    },
                    None => {},
                }
                None
            },
            LineKind::Other => None,
        }
    }

    /// Completes the commit under way, if it touched a counted file.
    pub fn finalize(&mut self) -> (r: Option<Commit>)
        ensures
            final(self).exts() == old(self).exts(),
            final(self).rules() == old(self).rules(),
            final(self).state() == finish_step(old(self).state()).0,
            opt_commit_view(r) == finish_step(old(self).state()).1,
    {
        if self.commit_touches_valid_file {
            self.current_commit.take()
        } else {
            None
        }
    }
}


/// The parser's state and the commits completed after feeding it `lines` in order.
pub open spec fn parse_prefix(
    exts: Seq<Seq<char>>,
    rules: Seq<(FilterType, Seq<char>)>,
    lines: Seq<Seq<char>>,
) -> (ParseState, Seq<CommitView>)
    decreases lines.len(),
{
    if lines.len() == 0 {
        ((None, false), Seq::empty())
    } else {
        let before = parse_prefix(exts, rules, lines.drop_last());
        let step = parse_step(exts, rules, before.0, lines.last());
        (step.0, match step.1 {
            Some(c) => before.1.push(c),
            None => before.1,
        })
    }
}

/// Whether feeding `lines` in order never overflows a commit's totals.
pub open spec fn parse_fits(
    exts: Seq<Seq<char>>,
    rules: Seq<(FilterType, Seq<char>)>,
    lines: Seq<Seq<char>>,
) -> bool
    decreases lines.len(),
{
    lines.len() == 0 || (parse_fits(exts, rules, lines.drop_last())
        && commit_fits(parse_step(exts, rules, parse_prefix(exts, rules, lines.drop_last()).0, lines.last()).0.0))
}

/// The commits of a whole `git log --numstat` text: those completed line by line, then the
/// one completed at the end of input.
pub open spec fn parsed_commits(
    exts: Seq<Seq<char>>,
    rules: Seq<(FilterType, Seq<char>)>,
    text: Seq<char>,
) -> Seq<CommitView> {
    let done = parse_prefix(exts, rules, crate::strutil::lines(text));
    match finish_step(done.0).1 {
        Some(c) => done.1.push(c),
        None => done.1,
    }
}

/// The views of a sequence of commits.
pub open spec fn commit_views(cs: Seq<Commit>) -> Seq<CommitView> {
    cs.map_values(|c: Commit| c@)
}

/// Legacy support for batch processing (internalizes the stream).
pub fn parse_commits(raw_output: &str, config: &Config, filter: &Filter) -> (r: Vec<Commit>)
    requires
        parse_fits(config.ext_list(), filter@, crate::strutil::lines(raw_output@)),
    ensures
        commit_views(r@) == parsed_commits(config.ext_list(), filter@, raw_output@),
{
    let ghost exts = config.ext_list();
    let ghost rules = filter@;
    let ghost all = crate::strutil::lines(raw_output@);
    let mut parser = CommitParser::new(config, filter);
    let mut commits: Vec<Commit> = Vec::new();
    let raw = chars_of(raw_output);
    let lines = crate::strutil::split_lines(&raw);
    let mut i: usize = 0;
    while i < lines.len()
        invariant
            i <= lines@.len() == all.len(),
            forall|k: int| 0 <= k < lines@.len() ==> #[trigger] lines@[k]@ == all[k],
            parse_fits(exts, rules, all),
            parser.exts() == exts,
            parser.rules() == rules,
            (parser.state(), commit_views(commits@)) == parse_prefix(exts, rules, all.take(i as int)),
        decreases lines@.len() - i,
    {
        let line = string_of(&lines[i]);
        assert(all.take(i + 1).drop_last() =~= all.take(i as int));
        assert(all.take(i + 1).last() == all[i as int]);
        proof {
            lemma_parse_fits_prefix(exts, rules, all, i + 1);
        }
        let out = parser.parse_line(line.as_str());
        match out {
            Some(c) => {
                commits.push(c);
            },
            None => {},
        }
        assert(commit_views(commits@) =~= parse_prefix(exts, rules, all.take(i + 1)).1);
        i = i + 1;
    }
    assert(all.take(lines@.len() as int) =~= all);
    match parser.finalize() {
        Some(c) => {
            commits.push(c);
        },
        None => {},
    }
    assert(commit_views(commits@) =~= parsed_commits(exts, rules, raw_output@));
    commits
}

/// The prefixes of lines that fit also fit.
pub proof fn lemma_parse_fits_prefix(
    exts: Seq<Seq<char>>,
    rules: Seq<(FilterType, Seq<char>)>,
    lines: Seq<Seq<char>>,
    k: int,
)
    requires
        0 <= k <= lines.len(),
        parse_fits(exts, rules, lines),
    ensures
        parse_fits(exts, rules, lines.take(k)),
    decreases lines.len() - k,
{
    if k < lines.len() {
        lemma_parse_fits_prefix(exts, rules, lines, k + 1);
        assert(lines.take(k + 1).drop_last() =~= lines.take(k));
    } else {
        assert(lines.take(k) =~= lines);
    }
}

/// `parse_commits` when no commit's totals overflow `u32`, `None` otherwise.
pub fn try_parse_commits(raw_output: &str, config: &Config, filter: &Filter) -> (r: Option<Vec<Commit>>)
    ensures
        r is Some <==> parse_fits(config.ext_list(), filter@, crate::strutil::lines(raw_output@)),
        r matches Some(cs) ==> commit_views(cs@) == parsed_commits(config.ext_list(), filter@, raw_output@),
{
    let ghost exts = config.ext_list();
    let ghost rules = filter@;
    let ghost all = crate::strutil::lines(raw_output@);
    let mut parser = CommitParser::new(config, filter);
    let raw = chars_of(raw_output);
    let lines = crate::strutil::split_lines(&raw);
    let mut i: usize = 0;
    let ghost done: Seq<CommitView> = Seq::empty();
    while i < lines.len()
        invariant
            i <= lines@.len() == all.len(),
            forall|k: int| 0 <= k < lines@.len() ==> #[trigger] lines@[k]@ == all[k],
            parser.exts() == exts,
            parser.rules() == rules,
            exts == config.ext_list(),
            rules == filter@,
            all == crate::strutil::lines(raw_output@),
            parse_fits(exts, rules, all.take(i as int)),
            (parser.state(), done) == parse_prefix(exts, rules, all.take(i as int)),
        decreases lines@.len() - i,
    {
        let line = string_of(&lines[i]);
        assert(all.take(i + 1).drop_last() =~= all.take(i as int));
        assert(all.take(i + 1).last() == all[i as int]);
        if !parser.can_parse_line(line.as_str()) {
            proof {
                if parse_fits(exts, rules, all) {
                    lemma_parse_fits_prefix(exts, rules, all, i + 1);
                    assert(line@ == all[i as int]);
                }
            }
            return None;
        }
        let out = parser.parse_line(line.as_str());
        proof {
            done = match opt_commit_view(out) {
                Some(c) => done.push(c),
                None => done,
            };
        }
        i = i + 1;
    }
    assert(all.take(lines@.len() as int) =~= all);
    Some(parse_commits(raw_output, config, filter))
}


// ---------------------------------------------------------------- statistics

/// Commits per specific day.
#[derive(Debug, Clone)]
pub struct DayActivity {
    pub date: String,
    pub commits: u32,
}

/// The content of a `DayActivity`.
pub struct DayView {
    pub date: Seq<char>,
    pub commits: nat,
}

impl View for DayActivity {
    type V = DayView;

    open spec fn view(&self) -> DayView {
        DayView { date: self.date@, commits: self.commits as nat }
    }
}

/// Aggregated activity for a specific week.
#[derive(Debug, Clone, Default)]
pub struct WeeklyActivity {
    pub week_id: String,
    pub commits: u32,
    pub insertions: u32,
    pub deletions: u32,
    pub top_files: Vec<FileChange>,
}

/// The content of a `WeeklyActivity`.
pub struct WeekView {
    pub week_id: Seq<char>,
    pub commits: nat,
    pub insertions: nat,
    pub deletions: nat,
    pub top_files: Seq<ChangeView>,
}

impl View for WeeklyActivity {
    type V = WeekView;

    open spec fn view(&self) -> WeekView {
        WeekView {
            week_id: self.week_id@,
            commits: self.commits as nat,
            insertions: self.insertions as nat,
            deletions: self.deletions as nat,
            top_files: views(self.top_files@),
        }
    }
}

/// Aggregated statistics for a specific author.
#[derive(Debug, Clone, Default)]
pub struct AuthorStats {
    pub name: String,
    pub email: String,
    pub commits: u32,
    pub insertions: u32,
    pub deletions: u32,
    pub activity: Vec<WeeklyActivity>,
    pub daily_activity: Vec<DayActivity>,
}

/// The content of an `AuthorStats`.
pub struct AuthorView {
    pub name: Seq<char>,
    pub email: Seq<char>,
    pub commits: nat,
    pub insertions: nat,
    pub deletions: nat,
    pub activity: Seq<WeekView>,
    pub daily: Seq<DayView>,
}

impl View for AuthorStats {
    type V = AuthorView;

    open spec fn view(&self) -> AuthorView {
        AuthorView {
            name: self.name@,
            email: self.email@,
            commits: self.commits as nat,
            insertions: self.insertions as nat,
            deletions: self.deletions as nat,
            activity: views(self.activity@),
            daily: views(self.daily_activity@),
        }
    }
}

impl AuthorStats {
    /// Net lines contributed: insertions minus deletions.
    pub fn impact(&self) -> (r: i64)
        ensures
            r == self.insertions - self.deletions,
    {
        (self.insertions as i64) - (self.deletions as i64)
    }
}

/// Metadata for a specific branch.
#[derive(Debug, Clone, Default)]
pub struct BranchInfo {
    pub name: String,
    pub last_commit_date: String,
    pub last_author: String,
    pub is_stale: bool,
}

/// The content of a `BranchInfo`.
pub struct BranchView {
    pub name: Seq<char>,
    pub last_commit_date: Seq<char>,
    pub last_author: Seq<char>,
    pub is_stale: bool,
}

impl View for BranchInfo {
    type V = BranchView;

    open spec fn view(&self) -> BranchView {
        BranchView {
            name: self.name@,
            last_commit_date: self.last_commit_date@,
            last_author: self.last_author@,
            is_stale: self.is_stale,
        }
    }
}

/// Aggregated health metrics for the entire repository.
#[derive(Debug, Clone, Default)]
pub struct RepoHealth {
    pub active_branches: Vec<BranchInfo>,
    pub stale_branches_count: usize,
    pub estimated_prs_count: usize,
    pub large_files: Vec<FileStats>,
}

/// The content of a `RepoHealth`.
pub struct HealthView {
    pub active_branches: Seq<BranchView>,
    pub stale_branches_count: nat,
    pub estimated_prs_count: nat,
    pub large_files: Seq<FileStatsView>,
}

impl View for RepoHealth {
    type V = HealthView;

    open spec fn view(&self) -> HealthView {
        HealthView {
            active_branches: views(self.active_branches@),
            stale_branches_count: self.stale_branches_count as nat,
            estimated_prs_count: self.estimated_prs_count as nat,
            large_files: views(self.large_files@),
        }
    }
}

/// Statistics for a specific file across all commits.
#[derive(Debug, Clone, Default)]
pub struct FileStats {
    pub path: String,
    pub commits: u32,
    pub insertions: u32,
    pub deletions: u32,
    pub total_lines: u32,
    pub loc: u32,
    pub last_updated: String,
}

/// The content of a `FileStats`.
pub struct FileStatsView {
    pub path: Seq<char>,
    pub commits: nat,
    pub insertions: nat,
    pub deletions: nat,
    pub total_lines: nat,
    pub loc: nat,
    pub last_updated: Seq<char>,
}

impl View for FileStats {
    type V = FileStatsView;

    open spec fn view(&self) -> FileStatsView {
        FileStatsView {
            path: self.path@,
            commits: self.commits as nat,
            insertions: self.insertions as nat,
            deletions: self.deletions as nat,
            total_lines: self.total_lines as nat,
            loc: self.loc as nat,
            last_updated: self.last_updated@,
        }
    }
}

impl FileStats {
    /// The file's name without its directories (its whole path when it has none).
    pub fn filename(&self) -> (r: String)
        ensures
            r@ == crate::paths::display_name(self.path@),
    {
        crate::paths::display_name_of(&self.path)
    }
}

// ---------------------------------------------------------------- orders

/// The lines a change touches: its insertions plus its deletions.
pub open spec fn churn(c: ChangeView) -> nat {
    c.insertions + c.deletions
}

impl Sortable for FileChange {
    /// Changes that touch more lines come first.
    open spec fn goes_before(a: ChangeView, b: ChangeView) -> bool {
        churn(a) > churn(b)
    }

    proof fn goes_before_strict(a: ChangeView, b: ChangeView, c: ChangeView) {
    }

    fn goes_before_exec(&self, other: &Self) -> (r: bool) {
        (self.insertions as u64 + self.deletions as u64) > (other.insertions as u64 + other.deletions as u64)
    }
}

impl Sortable for AuthorStats {
    /// Authors with more commits come first.
    open spec fn goes_before(a: AuthorView, b: AuthorView) -> bool {
        a.commits > b.commits
    }

    proof fn goes_before_strict(a: AuthorView, b: AuthorView, c: AuthorView) {
    }

    fn goes_before_exec(&self, other: &Self) -> (r: bool) {
        self.commits > other.commits
    }
}

impl Sortable for FileStats {
    /// Files with more commits come first.
    open spec fn goes_before(a: FileStatsView, b: FileStatsView) -> bool {
        a.commits > b.commits
    }

    proof fn goes_before_strict(a: FileStatsView, b: FileStatsView, c: FileStatsView) {
    }

    fn goes_before_exec(&self, other: &Self) -> (r: bool) {
        self.commits > other.commits
    }
}

impl Sortable for WeeklyActivity {
    /// Weeks in the order of their ids.
    open spec fn goes_before(a: WeekView, b: WeekView) -> bool {
        seq_lt(a.week_id, b.week_id)
    }

    proof fn goes_before_strict(a: WeekView, b: WeekView, c: WeekView) {
        lemma_seq_lt_total(a.week_id, b.week_id);
        if seq_lt(a.week_id, b.week_id) && seq_lt(b.week_id, c.week_id) {
            lemma_seq_lt_transitive(a.week_id, b.week_id, c.week_id);
        }
    }

    fn goes_before_exec(&self, other: &Self) -> (r: bool) {
        chars_lt(&chars_of(self.week_id.as_str()), &chars_of(other.week_id.as_str()))
    }
}

impl Sortable for DayActivity {
    /// Days in the order of their dates.
    open spec fn goes_before(a: DayView, b: DayView) -> bool {
        seq_lt(a.date, b.date)
    }

    proof fn goes_before_strict(a: DayView, b: DayView, c: DayView) {
        lemma_seq_lt_total(a.date, b.date);
        if seq_lt(a.date, b.date) && seq_lt(b.date, c.date) {
            lemma_seq_lt_transitive(a.date, b.date, c.date);
        }
    }

    fn goes_before_exec(&self, other: &Self) -> (r: bool) {
        chars_lt(&chars_of(self.date.as_str()), &chars_of(other.date.as_str()))
    }
}

// ---------------------------------------------------------------- the aggregation model

/// The content of an `IncrementalAggregator`: authors and files in the order first seen.
pub struct AggView {
    pub authors: Seq<AuthorView>,
    pub files: Seq<FileStatsView>,
}

pub open spec fn emails(a: Seq<AuthorView>) -> Seq<Seq<char>> {
    a.map_values(|x: AuthorView| x.email)
}

pub open spec fn file_paths(f: Seq<FileStatsView>) -> Seq<Seq<char>> {
    f.map_values(|x: FileStatsView| x.path)
}

pub open spec fn change_paths(c: Seq<ChangeView>) -> Seq<Seq<char>> {
    c.map_values(|x: ChangeView| x.path)
}

pub open spec fn week_ids(w: Seq<WeekView>) -> Seq<Seq<char>> {
    w.map_values(|x: WeekView| x.week_id)
}

pub open spec fn day_dates(d: Seq<DayView>) -> Seq<Seq<char>> {
    d.map_values(|x: DayView| x.date)
}

/// The instant of a commit date (a UNIX timestamp in text) and its calendar parts, when the
/// text parses as an `i64` and `chrono` can represent it.
pub open spec fn commit_moment(date: Seq<char>) -> Option<(i64, (i32, u32, i32, u32))> {
    match parse_i64(date) {
        Some(ts) => match utc_date_parts(ts) {
            Some(p) => Some((ts, p)),
            None => None,
        },
        None => None,
    }
}

/// The id of a commit's week: the year its ISO week belongs to, `-`, and the ISO week number.
pub open spec fn week_key(p: (i32, u32, i32, u32)) -> Seq<char> {
    int_text(p.2 as int) + seq!['-'] + nat_text(p.3 as nat)
}

/// The `%Y-%m-%d` day of an instant.
pub open spec fn day_key(ts: i64) -> Seq<char> {
    match utc_day_text(ts) {
        Some(t) => t,
        None => Seq::empty(),
    }
}

/// `tf` with `ch` merged in: added to the entry with the same path, or appended.
pub open spec fn top_merge(tf: Seq<ChangeView>, ch: ChangeView) -> Seq<ChangeView> {
    let k = pos_of(change_paths(tf), ch.path);
    if k >= 0 {
        tf.update(k, ChangeView {
            path: tf[k].path,
            insertions: tf[k].insertions + ch.insertions,
            deletions: tf[k].deletions + ch.deletions,
        })
    } else {
        tf.push(ch)
    }
}

/// One change merged into a week's top files; past 30 entries the list is ranked by churn
/// and cut to the first 15.
pub open spec fn top_step(tf: Seq<ChangeView>, ch: ChangeView) -> Seq<ChangeView> {
    let t = top_merge(tf, ch);
    if t.len() > 30 {
        truncated(stable_sort::<FileChange>(t), 15)
    } else {
        t
    }
}

/// Whether `top_step` stays within `u32`: the merged counts, and the churns it ranks by.
pub open spec fn top_step_ok(tf: Seq<ChangeView>, ch: ChangeView) -> bool {
    let k = pos_of(change_paths(tf), ch.path);
    let t = top_merge(tf, ch);
    &&& k >= 0 ==> tf[k].insertions + ch.insertions <= u32::MAX && tf[k].deletions + ch.deletions <= u32::MAX
    &&& t.len() > 30 ==> forall|i: int| 0 <= i < t.len() ==> churn(#[trigger] t[i]) <= u32::MAX
}

/// A week's top files after merging the changes `chs` in order.
pub open spec fn top_fold(tf: Seq<ChangeView>, chs: Seq<ChangeView>) -> Seq<ChangeView>
    decreases chs.len(),
{
    if chs.len() == 0 {
        tf
    } else {
        top_step(top_fold(tf, chs.drop_last()), chs.last())
    }
}

/// Whether every step of `top_fold` stays within `u32`.
pub open spec fn top_fold_ok(tf: Seq<ChangeView>, chs: Seq<ChangeView>) -> bool
    decreases chs.len(),
{
    chs.len() == 0 || (top_fold_ok(tf, chs.drop_last()) && top_step_ok(top_fold(tf, chs.drop_last()), chs.last()))
}

/// The commit count recorded for day `d`.
pub open spec fn day_count(days: Seq<DayView>, d: Seq<char>) -> nat {
    let k = pos_of(day_dates(days), d);
    if k >= 0 {
        days[k].commits
    } else {
        0
    }
}

/// `days` with one more commit on day `d`.
pub open spec fn bump_day(days: Seq<DayView>, d: Seq<char>) -> Seq<DayView> {
    let k = pos_of(day_dates(days), d);
    if k >= 0 {
        days.update(k, DayView { date: days[k].date, commits: days[k].commits + 1 })
    } else {
        days.push(DayView { date: d, commits: 1 })
    }
}

/// The entry of week `id`, or a fresh one.
pub open spec fn week_entry(weeks: Seq<WeekView>, id: Seq<char>) -> WeekView {
    let k = pos_of(week_ids(weeks), id);
    if k >= 0 {
        weeks[k]
    } else {
        WeekView { week_id: id, commits: 0, insertions: 0, deletions: 0, top_files: Seq::empty() }
    }
}

/// A week entry with commit `c` counted in.
pub open spec fn week_after(w: WeekView, c: CommitView) -> WeekView {
    WeekView {
        week_id: w.week_id,
        commits: w.commits + 1,
        insertions: w.insertions + c.insertions,
        deletions: w.deletions + c.deletions,
        top_files: top_fold(w.top_files, c.changes),
    }
}

/// `weeks` with commit `c` counted in week `id`.
pub open spec fn bump_week(weeks: Seq<WeekView>, id: Seq<char>, c: CommitView) -> Seq<WeekView> {
    let k = pos_of(week_ids(weeks), id);
    let w = week_after(week_entry(weeks, id), c);
    if k >= 0 {
        weeks.update(k, w)
    } else {
        weeks.push(w)
    }
}

/// Whether `bump_week` stays within `u32`.
pub open spec fn week_fits(weeks: Seq<WeekView>, id: Seq<char>, c: CommitView) -> bool {
    let w = week_entry(weeks, id);
    &&& w.commits + 1 <= u32::MAX
    &&& w.insertions + c.insertions <= u32::MAX
    &&& w.deletions + c.deletions <= u32::MAX
    &&& top_fold_ok(w.top_files, c.changes)
}

/// The statistics of file `p`, or fresh ones.
pub open spec fn file_entry(files: Seq<FileStatsView>, p: Seq<char>) -> FileStatsView {
    let k = pos_of(file_paths(files), p);
    if k >= 0 {
        files[k]
    } else {
        FileStatsView { path: p, commits: 0, insertions: 0, deletions: 0, total_lines: 0, loc: 0, last_updated: Seq::empty() }
    }
}

/// A file's statistics with one change of a commit dated `date` counted in; the latest
/// date (in text order) is kept.
pub open spec fn file_after(f: FileStatsView, ch: ChangeView, date: Seq<char>) -> FileStatsView {
    FileStatsView {
        commits: f.commits + 1,
        insertions: f.insertions + ch.insertions,
        deletions: f.deletions + ch.deletions,
        last_updated: if seq_lt(f.last_updated, date) { date } else { f.last_updated },
        ..f
    }
}

/// `files` with one change counted in.
pub open spec fn file_step(files: Seq<FileStatsView>, ch: ChangeView, date: Seq<char>) -> Seq<FileStatsView> {
    let k = pos_of(file_paths(files), ch.path);
    let f = file_after(file_entry(files, ch.path), ch, date);
    if k >= 0 {
        files.update(k, f)
    } else {
        files.push(f)
    }
}

/// `files` with the changes `chs` counted in, in order.
pub open spec fn files_fold(files: Seq<FileStatsView>, chs: Seq<ChangeView>, date: Seq<char>) -> Seq<FileStatsView>
    decreases chs.len(),
{
    if chs.len() == 0 {
        files
    } else {
        file_step(files_fold(files, chs.drop_last(), date), chs.last(), date)
    }
}

/// How many of `chs` touch path `p`.
pub open spec fn count_path(chs: Seq<ChangeView>, p: Seq<char>) -> nat
    decreases chs.len(),
{
    if chs.len() == 0 {
        0
    } else {
        (if chs[0].path == p { 1nat } else { 0nat }) + count_path(chs.drop_first(), p)
    }
}

/// The insertions of the changes of `chs` to path `p`.
pub open spec fn ins_path(chs: Seq<ChangeView>, p: Seq<char>) -> nat
    decreases chs.len(),
{
    if chs.len() == 0 {
        0
    } else {
        (if chs[0].path == p { chs[0].insertions } else { 0nat }) + ins_path(chs.drop_first(), p)
    }
}

/// The deletions of the changes of `chs` to path `p`.
pub open spec fn del_path(chs: Seq<ChangeView>, p: Seq<char>) -> nat
    decreases chs.len(),
{
    if chs.len() == 0 {
        0
    } else {
        (if chs[0].path == p { chs[0].deletions } else { 0nat }) + del_path(chs.drop_first(), p)
    }
}

/// Whether counting the changes `chs` in keeps every file's counts within `u32`.
pub open spec fn files_fit(files: Seq<FileStatsView>, chs: Seq<ChangeView>) -> bool {
    forall|j: int| 0 <= j < chs.len() ==> {
        let p = #[trigger] chs[j].path;
        let f = file_entry(files, p);
        &&& f.commits + count_path(chs, p) <= u32::MAX
        &&& f.insertions + ins_path(chs, p) <= u32::MAX
        &&& f.deletions + del_path(chs, p) <= u32::MAX
    }
}

/// The entry of the author of `c`, or a fresh one named after the commit.
pub open spec fn author_entry(authors: Seq<AuthorView>, c: CommitView) -> AuthorView {
    let k = pos_of(emails(authors), c.author_email);
    if k >= 0 {
        authors[k]
    } else {
        AuthorView {
            name: c.author_name,
            email: c.author_email,
            commits: 0,
            insertions: 0,
            deletions: 0,
            activity: Seq::empty(),
            daily: Seq::empty(),
        }
    }
}

/// An author's statistics with commit `c` counted in: totals always, and the day and week
/// activity when the commit's date is a representable timestamp.
pub open spec fn author_after(a: AuthorView, c: CommitView) -> AuthorView {
    let a1 = AuthorView {
        commits: a.commits + 1,
        insertions: a.insertions + c.insertions,
        deletions: a.deletions + c.deletions,
        ..a
    };
    match commit_moment(c.date) {
        Some(m) => AuthorView {
            daily: bump_day(a1.daily, day_key(m.0)),
            activity: bump_week(a1.activity, week_key(m.1), c),
            ..a1
        },
        None => a1,
    }
}

/// The aggregation with commit `c` counted in. File statistics take the commit's changes only
/// when its date is a representable timestamp.
pub open spec fn add_model(m: AggView, c: CommitView) -> AggView {
    let k = pos_of(emails(m.authors), c.author_email);
    let a = author_after(author_entry(m.authors, c), c);
    AggView {
        authors: if k >= 0 { m.authors.update(k, a) } else { m.authors.push(a) },
        files: if commit_moment(c.date) is Some { files_fold(m.files, c.changes, c.date) } else { m.files },
    }
}

/// Whether counting commit `c` in keeps every count within `u32`.
pub open spec fn add_fits(m: AggView, c: CommitView) -> bool {
    let a = author_entry(m.authors, c);
    &&& a.commits + 1 <= u32::MAX
    &&& a.insertions + c.insertions <= u32::MAX
    &&& a.deletions + c.deletions <= u32::MAX
    &&& match commit_moment(c.date) {
        Some(mo) => {
            &&& day_count(a.daily, day_key(mo.0)) + 1 <= u32::MAX
            &&& week_fits(a.activity, week_key(mo.1), c)
            &&& files_fit(m.files, c.changes)
        },
        None => true,
    }
}


// ---------------------------------------------------------------- aggregation steps

/// The position of day `d` in `days`, or `days.len()` when absent.
fn find_day(days: &Vec<DayActivity>, d: &String) -> (r: usize)
    ensures
        r <= days@.len(),
        r < days@.len() ==> pos_of(day_dates(views(days@)), d@) == r as int,
        r == days@.len() ==> pos_of(day_dates(views(days@)), d@) == -1,
{
    let ghost ps = day_dates(views(days@));
    let mut i: usize = 0;
    while i < days.len()
        invariant
            i <= days@.len(),
            ps == day_dates(views(days@)),
            forall|j: int| 0 <= j < i ==> days@[j].date@ != d@,
        decreases days@.len() - i,
    {
        if days[i].date == *d {
            proof {
                assert forall|j: int| 0 <= j < ps.len() && j < i implies ps[j] != d@ by {
                    assert(ps[j] == days@[j].date@);
                }
                lemma_pos_of_is(ps, d@, i as int);
            }
            return i;
        }
        i = i + 1;
    }
    proof {
        assert forall|j: int| 0 <= j < ps.len() implies ps[j] != d@ by {
            assert(ps[j] == days@[j].date@);
        }
        lemma_pos_of_is(ps, d@, -1);
    }
    i
}

/// The position of week `id` in `weeks`, or `weeks.len()` when absent.
fn find_week(weeks: &Vec<WeeklyActivity>, id: &String) -> (r: usize)
    ensures
        r <= weeks@.len(),
        r < weeks@.len() ==> pos_of(week_ids(views(weeks@)), id@) == r as int,
        r == weeks@.len() ==> pos_of(week_ids(views(weeks@)), id@) == -1,
{
    let ghost ps = week_ids(views(weeks@));
    let mut i: usize = 0;
    while i < weeks.len()
        invariant
            i <= weeks@.len(),
            ps == week_ids(views(weeks@)),
            forall|j: int| 0 <= j < i ==> weeks@[j].week_id@ != id@,
        decreases weeks@.len() - i,
    {
        if weeks[i].week_id == *id {
            proof {
                assert forall|j: int| 0 <= j < ps.len() && j < i implies ps[j] != id@ by {
                    assert(ps[j] == weeks@[j].week_id@);
                }
                lemma_pos_of_is(ps, id@, i as int);
            }
            return i;
        }
        i = i + 1;
    }
    proof {
        assert forall|j: int| 0 <= j < ps.len() implies ps[j] != id@ by {
            assert(ps[j] == weeks@[j].week_id@);
        }
        lemma_pos_of_is(ps, id@, -1);
    }
    i
}

/// Counts one more commit on day `d`.
fn bump_day_exec(days: &mut Vec<DayActivity>, d: String)
    requires
        day_count(views(old(days)@), d@) + 1 <= u32::MAX,
    ensures
        views(final(days)@) == bump_day(views(old(days)@), d@),
{
    let ghost ds = views(days@);
    let i = find_day(days, &d);
    if i < days.len() {
        proof {
            lemma_pos_of(day_dates(ds), d@);
            assert(day_dates(ds)[i as int] == ds[i as int].date);
        }
        let n = days[i].commits + 1;
        days.set(i, DayActivity { date: d, commits: n });
    } else {
        days.push(DayActivity { date: d, commits: 1 });
    }
    assert(views(days@) =~= bump_day(ds, d@));
}

/// The position of path `p` among the changes of `tf`, or `tf.len()` when absent.
fn find_change(tf: &Vec<FileChange>, p: &String) -> (r: usize)
    ensures
        r <= tf@.len(),
        r < tf@.len() ==> pos_of(change_paths(views(tf@)), p@) == r as int,
        r == tf@.len() ==> pos_of(change_paths(views(tf@)), p@) == -1,
{
    let ghost ps = change_paths(views(tf@));
    let mut i: usize = 0;
    while i < tf.len()
        invariant
            i <= tf@.len(),
            ps == change_paths(views(tf@)),
            forall|j: int| 0 <= j < i ==> tf@[j].path@ != p@,
        decreases tf@.len() - i,
    {
        if tf[i].path == *p {
            proof {
                assert forall|j: int| 0 <= j < ps.len() && j < i implies ps[j] != p@ by {
                    assert(ps[j] == tf@[j].path@);
                }
                lemma_pos_of_is(ps, p@, i as int);
            }
            return i;
        }
        i = i + 1;
    }
    proof {
        assert forall|j: int| 0 <= j < ps.len() implies ps[j] != p@ by {
            assert(ps[j] == tf@[j].path@);
        }
        lemma_pos_of_is(ps, p@, -1);
    }
    i
}

/// Merges one change into a week's top files (`top_step`).
fn top_step_exec(tf: &mut Vec<FileChange>, ch: &FileChange)
    requires
        top_step_ok(views(old(tf)@), ch@),
    ensures
        views(final(tf)@) == top_step(views(old(tf)@), ch@),
{
    let ghost t0 = views(tf@);
    let k = find_change(tf, &ch.path);
    if k < tf.len() {
        let ins = tf[k].insertions + ch.insertions;
        let del = tf[k].deletions + ch.deletions;
        let path = tf[k].path.clone();
        tf.set(k, FileChange { path, insertions: ins, deletions: del });
    } else {
        tf.push(ch.duplicate());
    }
    assert(views(tf@) =~= top_merge(t0, ch@));
    if tf.len() > 30 {
        let mut t: Vec<FileChange> = Vec::new();
        core::mem::swap(tf, &mut t);
        let mut sorted = stable_sort_vec(t);
        sorted.truncate(15);
        *tf = sorted;
        assert(views(tf@) =~= top_step(t0, ch@));
    }
}

/// The prefixes of a fitting top-file fold fit.
proof fn lemma_top_fold_ok_prefix(tf: Seq<ChangeView>, chs: Seq<ChangeView>, k: int)
    requires
        0 <= k <= chs.len(),
        top_fold_ok(tf, chs),
    ensures
        top_fold_ok(tf, chs.take(k)),
    decreases chs.len() - k,
{
    if k < chs.len() {
        lemma_top_fold_ok_prefix(tf, chs, k + 1);
        assert(chs.take(k + 1).drop_last() =~= chs.take(k));
    } else {
        assert(chs.take(k) =~= chs);
    }
}

/// Merges all changes of a commit into a week's top files (`top_fold`).
fn top_fold_exec(tf: &mut Vec<FileChange>, chs: &Vec<FileChange>)
    requires
        top_fold_ok(views(old(tf)@), views(chs@)),
    ensures
        views(final(tf)@) == top_fold(views(old(tf)@), views(chs@)),
{
    let ghost t0 = views(tf@);
    let ghost cs = views(chs@);
    let mut j: usize = 0;
    assert(cs.take(0) =~= Seq::<ChangeView>::empty());
    while j < chs.len()
        invariant
            j <= chs@.len(),
            cs == views(chs@),
            top_fold_ok(t0, cs),
            views(tf@) == top_fold(t0, cs.take(j as int)),
        decreases chs@.len() - j,
    {
        proof {
            lemma_top_fold_ok_prefix(t0, cs, j + 1);
            assert(cs.take(j + 1).drop_last() =~= cs.take(j as int));
            assert(cs.take(j + 1).last() == chs@[j as int]@);
        }
        top_step_exec(tf, &chs[j]);
        j = j + 1;
    }
    assert(cs.take(chs@.len() as int) =~= cs);
}

/// Counts commit `c` in week `id`.
fn bump_week_exec(weeks: &mut Vec<WeeklyActivity>, id: String, c: &Commit)
    requires
        week_fits(views(old(weeks)@), id@, c@),
    ensures
        views(final(weeks)@) == bump_week(views(old(weeks)@), id@, c@),
{
    let ghost ws = views(weeks@);
    let i = find_week(weeks, &id);
    let mut w = WeeklyActivity { week_id: id, commits: 0, insertions: 0, deletions: 0, top_files: Vec::new() };
    let found = i < weeks.len();
    if found {
        weeks.set_and_swap(i, &mut w);
        assert(w@ == ws[i as int]);
    } else {
        assert(views(w.top_files@) =~= Seq::<ChangeView>::empty());
    }
    assert(w@ == week_entry(ws, id@));
    w.commits = w.commits + 1;
    w.insertions = w.insertions + c.insertions;
    w.deletions = w.deletions + c.deletions;
    top_fold_exec(&mut w.top_files, &c.changes);
    assert(w@ == week_after(week_entry(ws, id@), c@));
    if found {
        weeks.set(i, w);
    } else {
        weeks.push(w);
    }
    assert(views(weeks@) =~= bump_week(ws, id@, c@));
}


/// How counting one change in affects the statistics of any path.
proof fn lemma_file_entry_step(files: Seq<FileStatsView>, ch: ChangeView, date: Seq<char>, q: Seq<char>)
    ensures
        file_entry(file_step(files, ch, date), q) == if q == ch.path {
            file_after(file_entry(files, q), ch, date)
        } else {
            file_entry(files, q)
        },
        file_paths(file_step(files, ch, date)) == if pos_of(file_paths(files), ch.path) >= 0 {
            file_paths(files)
        } else {
            file_paths(files).push(ch.path)
        },
{
    let ps = file_paths(files);
    let k = pos_of(ps, ch.path);
    let f = file_after(file_entry(files, ch.path), ch, date);
    let next = file_step(files, ch, date);
    lemma_pos_of(ps, ch.path);
    lemma_pos_of(ps, q);
    if k >= 0 {
        assert(ps[k] == files[k].path);
        assert(file_paths(next) =~= ps);
        if q == ch.path {
        } else {
            let kq = pos_of(ps, q);
            if kq >= 0 {
                assert(ps[kq] == q);
                assert(kq != k);
            }
        }
    } else {
        assert(file_paths(next) =~= ps.push(ch.path));
        lemma_pos_of_push(ps, ch.path, q);
        let kq = pos_of(ps, q);
        if kq >= 0 {
            assert(next[kq] == files[kq]);
        }
    }
}

/// Unfolding the per-path sums at position `j`.
proof fn lemma_path_sums_skip(chs: Seq<ChangeView>, j: int, q: Seq<char>)
    requires
        0 <= j < chs.len(),
    ensures
        count_path(chs.skip(j), q) == (if chs[j].path == q { 1nat } else { 0nat }) + count_path(chs.skip(j + 1), q),
        ins_path(chs.skip(j), q) == (if chs[j].path == q { chs[j].insertions } else { 0nat }) + ins_path(chs.skip(j + 1), q),
        del_path(chs.skip(j), q) == (if chs[j].path == q { chs[j].deletions } else { 0nat }) + del_path(chs.skip(j + 1), q),
{
    assert(chs.skip(j).drop_first() =~= chs.skip(j + 1));
    assert(chs.skip(j)[0] == chs[j]);
}

/// Whether every path's statistics plus what the changes `rest` still bring equal those of
/// `orig` plus all of `chs`.
pub open spec fn sums_balance(
    cur: Seq<FileStatsView>,
    rest: Seq<ChangeView>,
    orig: Seq<FileStatsView>,
    chs: Seq<ChangeView>,
) -> bool {
    forall|q: Seq<char>| {
        &&& #[trigger] file_entry(cur, q).commits + count_path(rest, q) == file_entry(orig, q).commits + count_path(chs, q)
        &&& file_entry(cur, q).insertions + ins_path(rest, q) == file_entry(orig, q).insertions + ins_path(chs, q)
        &&& file_entry(cur, q).deletions + del_path(rest, q) == file_entry(orig, q).deletions + del_path(chs, q)
    }
}

/// Counts one change into a file's statistics (`file_after`).
fn file_after_exec(f: &mut FileStats, ch: &FileChange, date: &String, date_chars: &Vec<char>)
    requires
        date_chars@ == date@,
        old(f).commits + 1 <= u32::MAX,
        old(f).insertions + ch.insertions <= u32::MAX,
        old(f).deletions + ch.deletions <= u32::MAX,
    ensures
        final(f)@ == file_after(old(f)@, ch@, date@),
{
    f.commits = f.commits + 1;
    f.insertions = f.insertions + ch.insertions;
    f.deletions = f.deletions + ch.deletions;
    if chars_lt(&chars_of(f.last_updated.as_str()), date_chars) {
        f.last_updated = date.clone();
    }
}

/// Counts all changes of a commit dated `date` into the file statistics (`files_fold`).
fn apply_file_changes(
    files: &mut Vec<FileStats>,
    index: &mut StringHashMap<usize>,
    chs: &Vec<FileChange>,
    date: &String,
)
    requires
        indexes(file_paths(views(old(files)@)), old(index)@),
        files_fit(views(old(files)@), views(chs@)),
    ensures
        views(final(files)@) == files_fold(views(old(files)@), views(chs@), date@),
        indexes(file_paths(views(final(files)@)), final(index)@),
{
    let ghost f0 = views(files@);
    let ghost cs = views(chs@);
    let date_chars = chars_of(date.as_str());
    let mut j: usize = 0;
    assert(cs.take(0) =~= Seq::<ChangeView>::empty());
    assert(cs.skip(0) =~= cs);
    while j < chs.len()
        invariant
            j <= chs@.len(),
            cs == views(chs@),
            f0 == views(old(files)@),
            date_chars@ == date@,
            files_fit(f0, cs),
            views(files@) == files_fold(f0, cs.take(j as int), date@),
            indexes(file_paths(views(files@)), index@),
            sums_balance(views(files@), cs.skip(j as int), f0, cs),
        decreases chs@.len() - j,
    {
        let ch = &chs[j];
        let ghost cur = views(files@);
        let ghost p = ch.path@;
        let ghost idx0 = index@;
        proof {
            assert(cs[j as int] == ch@);
            lemma_indexes_pos(file_paths(cur), idx0, p);
            lemma_path_sums_skip(cs, j as int, p);
            assert(file_entry(cur, p).commits + count_path(cs.skip(j as int), p) == file_entry(f0, p).commits + count_path(cs, p));
            assert(file_entry(cur, p).insertions + ins_path(cs.skip(j as int), p) == file_entry(f0, p).insertions + ins_path(cs, p));
            assert(file_entry(cur, p).deletions + del_path(cs.skip(j as int), p) == file_entry(f0, p).deletions + del_path(cs, p));
            assert(cs[j as int].path == p);
        }
        match index.get(ch.path.as_str()) {
            Some(iref) => {
                let i = *iref;
                let mut f = FileStats {
                    path: String::new(),
                    commits: 0,
                    insertions: 0,
                    deletions: 0,
                    total_lines: 0,
                    loc: 0,
                    last_updated: String::new(),
                };
                files.set_and_swap(i, &mut f);
                assert(f@ == file_entry(cur, p));
                file_after_exec(&mut f, ch, date, &date_chars);
                files.set(i, f);
                proof {
                    lemma_pos_of(file_paths(cur), p);
                    assert(file_paths(cur)[i as int] == cur[i as int].path);
                }
                assert(views(files@) =~= file_step(cur, ch@, date@));
            },
            None => {
                let mut f = FileStats {
                    path: ch.path.clone(),
                    commits: 0,
                    insertions: 0,
                    deletions: 0,
                    total_lines: 0,
                    loc: 0,
                    last_updated: String::new(),
                };
                assert(f@ == file_entry(cur, p));
                file_after_exec(&mut f, ch, date, &date_chars);
                let len = files.len();
                files.push(f);
                index.insert(ch.path.clone(), len);
                proof {
                    lemma_indexes_push(file_paths(cur), idx0, p);
                }
                assert(views(files@) =~= file_step(cur, ch@, date@));
                assert(file_paths(views(files@)) =~= file_paths(cur).push(p));
            },
        }
        proof {
            lemma_file_entry_step(cur, ch@, date@, p);
            assert(cs.take(j + 1).drop_last() =~= cs.take(j as int));
            assert(cs.take(j + 1).last() == ch@);
            assert forall|q: Seq<char>| {
                &&& #[trigger] file_entry(views(files@), q).commits + count_path(cs.skip(j + 1), q) == file_entry(f0, q).commits + count_path(cs, q)
                &&& file_entry(views(files@), q).insertions + ins_path(cs.skip(j + 1), q) == file_entry(f0, q).insertions + ins_path(cs, q)
                &&& file_entry(views(files@), q).deletions + del_path(cs.skip(j + 1), q) == file_entry(f0, q).deletions + del_path(cs, q)
            } by {
                lemma_file_entry_step(cur, ch@, date@, q);
                lemma_path_sums_skip(cs, j as int, q);
                assert(file_entry(cur, q).commits + count_path(cs.skip(j as int), q) == file_entry(f0, q).commits + count_path(cs, q));
                assert(file_entry(cur, q).insertions + ins_path(cs.skip(j as int), q) == file_entry(f0, q).insertions + ins_path(cs, q));
                assert(file_entry(cur, q).deletions + del_path(cs.skip(j as int), q) == file_entry(f0, q).deletions + del_path(cs, q));
            }
        }
        j = j + 1;
    }
    assert(cs.take(chs@.len() as int) =~= cs);
}


// ---------------------------------------------------------------- the aggregator

/// Folds commits, one at a time, into per-author and per-file statistics.
pub struct IncrementalAggregator {
    authors: Vec<AuthorStats>,
    author_index: StringHashMap<usize>,
    files: Vec<FileStats>,
    file_index: StringHashMap<usize>,
}

impl View for IncrementalAggregator {
    type V = AggView;

    closed spec fn view(&self) -> AggView {
        AggView { authors: views(self.authors@), files: views(self.files@) }
    }
}

/// The empty aggregation.
pub open spec fn empty_agg() -> AggView {
    AggView { authors: Seq::empty(), files: Seq::empty() }
}

/// The week id `year-week` of calendar parts.
fn week_key_string(p: (i32, u32, i32, u32)) -> (r: String)
    ensures
        r@ == week_key(p),
{
    let mut v: Vec<char> = Vec::new();
    push_int(&mut v, p.2 as i64);
    v.push('-');
    push_nat(&mut v, p.3 as u64);
    assert(v@ =~= week_key(p));
    string_of(&v)
}

impl IncrementalAggregator {
    /// Whether the lookup indexes agree with the statistics they index.
    pub closed spec fn wf(&self) -> bool {
        &&& indexes(emails(self@.authors), self.author_index@)
        &&& indexes(file_paths(self@.files), self.file_index@)
    }

    /// An aggregator that has seen no commit.
    pub fn new() -> (r: Self)
        ensures
            r.wf(),
            r@ == empty_agg(),
    {
        let r = IncrementalAggregator {
            authors: Vec::new(),
            author_index: StringHashMap::new(),
            files: Vec::new(),
            file_index: StringHashMap::new(),
        };
        assert(r@.authors =~= Seq::<AuthorView>::empty());
        assert(r@.files =~= Seq::<FileStatsView>::empty());
        assert(emails(r@.authors) =~= Seq::<Seq<char>>::empty());
        assert(file_paths(r@.files) =~= Seq::<Seq<char>>::empty());
        r
    }

    /// Counts commit `commit` in (`add_model`).
    pub fn add_commit(&mut self, commit: &Commit)
        requires
            old(self).wf(),
            add_fits(old(self)@, commit@),
        ensures
            final(self).wf(),
            final(self)@ == add_model(old(self)@, commit@),
    {
        let ghost m = self@;
        let ghost c = commit@;
        let ghost k0 = pos_of(emails(m.authors), c.author_email);
        proof {
            lemma_indexes_pos(emails(m.authors), self.author_index@, c.author_email);
        }
        let k: usize = match self.author_index.get(commit.author_email.as_str()) {
            Some(i) => *i,
            None => {
                let fresh = AuthorStats {
                    name: commit.author_name.clone(),
                    email: commit.author_email.clone(),
                    commits: 0,
                    insertions: 0,
                    deletions: 0,
                    activity: Vec::new(),
                    daily_activity: Vec::new(),
                };
                assert(views(fresh.activity@) =~= Seq::<WeekView>::empty());
                assert(views(fresh.daily_activity@) =~= Seq::<DayView>::empty());
                assert(fresh@ == author_entry(m.authors, c));
                let len = self.authors.len();
                self.authors.push(fresh);
                self.author_index.insert(commit.author_email.clone(), len);
                proof {
                    lemma_indexes_push(emails(m.authors), self.author_index@.remove(c.author_email), c.author_email);
                    assert(self.author_index@.remove(c.author_email).insert(c.author_email, len) == self.author_index@);
                    assert(emails(views(self.authors@)) =~= emails(m.authors).push(c.author_email));
                }
                len
            },
        };
        let ghost a1 = views(self.authors@);
        assert(a1[k as int] == author_entry(m.authors, c)) by {
            lemma_pos_of(emails(m.authors), c.author_email);
            if k0 >= 0 {
                assert(emails(m.authors)[k0] == m.authors[k0].email);
            }
        }
        let mut a = AuthorStats {
            name: String::new(),
            email: String::new(),
            commits: 0,
            insertions: 0,
            deletions: 0,
            activity: Vec::new(),
            daily_activity: Vec::new(),
        };
        self.authors.set_and_swap(k, &mut a);
        let ghost a0 = a@;
        a.commits = a.commits + 1;
        a.insertions = a.insertions + commit.insertions;
        a.deletions = a.deletions + commit.deletions;
        let date_chars = chars_of(commit.date.as_str());
        let ts_opt = parse_i64_chars(&date_chars);
        match ts_opt {
            Some(ts) => match date_parts(ts) {
                Some(parts) => {
                    let day = match format_day(ts) {
                        Some(d) => d,
                        None => String::new(),
                    };
                    bump_day_exec(&mut a.daily_activity, day);
                    let week_id = week_key_string(parts);
                    bump_week_exec(&mut a.activity, week_id, commit);
                    apply_file_changes(&mut self.files, &mut self.file_index, &commit.changes, &commit.date);
                },
                None => {},
            },
            None => {},
        }
        assert(a@ == author_after(a0, c));
        self.authors.set(k, a);
        assert(emails(views(self.authors@)) =~= emails(a1));
        proof {
            if k0 >= 0 {
                assert(views(self.authors@) =~= m.authors.update(k0, author_after(author_entry(m.authors, c), c)));
            } else {
                assert(views(self.authors@) =~= m.authors.push(author_after(author_entry(m.authors, c), c)));
            }
        }
    }
}


/// A copy of a list of changes.
fn copy_changes(v: &Vec<FileChange>) -> (r: Vec<FileChange>)
    ensures
        views(r@) == views(v@),
{
    let mut r: Vec<FileChange> = Vec::new();
    let mut i: usize = 0;
    while i < v.len()
        invariant
            i <= v@.len(),
            r@.len() == i,
            forall|j: int| 0 <= j < i ==> #[trigger] r@[j]@ == v@[j]@,
        decreases v@.len() - i,
    {
        r.push(v[i].duplicate());
        i = i + 1;
    }
    assert(views(r@) =~= views(v@));
    r
}

/// Executable `top_step_ok`.
fn top_step_ok_exec(tf: &Vec<FileChange>, ch: &FileChange) -> (r: bool)
    ensures
        r == top_step_ok(views(tf@), ch@),
{
    let ghost t0 = views(tf@);
    let ghost t = top_merge(t0, ch@);
    let k = find_change(tf, &ch.path);
    let n = tf.len();
    if k < n {
        if tf[k].insertions as u64 + ch.insertions as u64 > 0xFFFF_FFFF
            || tf[k].deletions as u64 + ch.deletions as u64 > 0xFFFF_FFFF {
            return false;
        }
    }
    let long = if k < n { n > 30 } else { n >= 30 };
    proof {
        lemma_pos_of(change_paths(t0), ch@.path);
    }
    assert(long == (t.len() > 30));
    if long {
        let mut i: usize = 0;
        while i < n
            invariant
                i <= n == tf@.len(),
                t0 == views(tf@),
                t == top_merge(t0, ch@),
                k <= n,
                k < n ==> pos_of(change_paths(t0), ch@.path) == k as int,
                k == n ==> pos_of(change_paths(t0), ch@.path) == -1,
                k < n ==> tf@[k as int].insertions + ch.insertions <= u32::MAX && tf@[k as int].deletions + ch.deletions <= u32::MAX,
                t.len() > 30,
                forall|j: int| 0 <= j < i ==> churn(#[trigger] t[j]) <= u32::MAX,
            decreases n - i,
        {
            let c: u64 = if i == k {
                (tf[i].insertions as u64 + ch.insertions as u64) + (tf[i].deletions as u64 + ch.deletions as u64)
            } else {
                tf[i].insertions as u64 + tf[i].deletions as u64
            };
            assert(c == churn(t[i as int]));
            if c > 0xFFFF_FFFF {
                assert(!top_step_ok(t0, ch@));
                return false;
            }
            i = i + 1;
        }
        if k == n {
            let c = ch.insertions as u64 + ch.deletions as u64;
            assert(c == churn(t[n as int]));
            if c > 0xFFFF_FFFF {
                return false;
            }
        }
    }
    true
}

/// The per-path sums over a suffix are at most those over the whole.
proof fn lemma_path_sums_mono(chs: Seq<ChangeView>, i: int, q: Seq<char>)
    requires
        0 <= i <= chs.len(),
    ensures
        count_path(chs.skip(i), q) <= count_path(chs, q),
        ins_path(chs.skip(i), q) <= ins_path(chs, q),
        del_path(chs.skip(i), q) <= del_path(chs, q),
    decreases i,
{
    if i == 0 {
        assert(chs.skip(0) =~= chs);
    } else {
        lemma_path_sums_mono(chs, i - 1, q);
        lemma_path_sums_skip(chs, i - 1, q);
    }
}

/// The commits, insertions and deletions that the changes `chs` bring to path `p`;
/// `None` when one of them exceeds `u32::MAX`.
fn path_sums(chs: &Vec<FileChange>, p: &String) -> (r: Option<(u64, u64, u64)>)
    ensures
        match r {
            Some(t) => t.0 == count_path(views(chs@), p@) && t.1 == ins_path(views(chs@), p@)
                && t.2 == del_path(views(chs@), p@) && t.0 <= u32::MAX && t.1 <= u32::MAX && t.2 <= u32::MAX,
            None => count_path(views(chs@), p@) > u32::MAX || ins_path(views(chs@), p@) > u32::MAX
                || del_path(views(chs@), p@) > u32::MAX,
        },
{
    let ghost cs = views(chs@);
    let mut i = chs.len();
    let mut cnt: u64 = 0;
    let mut ins: u64 = 0;
    let mut del: u64 = 0;
    assert(cs.skip(cs.len() as int) =~= Seq::<ChangeView>::empty());
    while i > 0
        invariant
            i <= chs@.len(),
            cs == views(chs@),
            cnt == count_path(cs.skip(i as int), p@),
            ins == ins_path(cs.skip(i as int), p@),
            del == del_path(cs.skip(i as int), p@),
            cnt <= u32::MAX,
            ins <= u32::MAX,
            del <= u32::MAX,
        decreases i,
    {
        i = i - 1;
        proof {
            lemma_path_sums_skip(cs, i as int, p@);
            assert(cs[i as int] == chs@[i as int]@);
        }
        if chs[i].path == *p {
            cnt = cnt + 1;
            ins = ins + chs[i].insertions as u64;
            del = del + chs[i].deletions as u64;
        }
        if cnt > 0xFFFF_FFFF || ins > 0xFFFF_FFFF || del > 0xFFFF_FFFF {
            proof {
                lemma_path_sums_mono(cs, i as int, p@);
            }
            return None;
        }
    }
    assert(cs.skip(0) =~= cs);
    Some((cnt, ins, del))
}

/// Whether every top file of every week has a churn within `u32` (what ranking them
/// for the final report needs).
pub open spec fn tops_fit(m: AggView) -> bool {
    forall|i: int, j: int, t: int|
        0 <= i < m.authors.len() && 0 <= j < m.authors[i].activity.len() && 0 <= t < m.authors[i].activity[j].top_files.len()
            ==> churn(#[trigger] m.authors[i].activity[j].top_files[t]) <= u32::MAX
}

impl IncrementalAggregator {
    /// Whether `add_commit` can take `commit` without a count overflowing `u32`.
    pub fn can_add_commit(&self, commit: &Commit) -> (r: bool)
        requires
            self.wf(),
        ensures
            r == add_fits(self@, commit@),
    {
        let ghost m = self@;
        let ghost c = commit@;
        let ghost ae = author_entry(m.authors, c);
        proof {
            lemma_indexes_pos(emails(m.authors), self.author_index@, c.author_email);
            lemma_pos_of(emails(m.authors), c.author_email);
        }
        let found = self.author_index.get(commit.author_email.as_str());
        let (ac, ai, ad): (u32, u32, u32) = match found {
            Some(i) => {
                let i = *i;
                assert(emails(m.authors)[i as int] == m.authors[i as int].email);
                assert(self.authors@[i as int]@ == ae);
                (self.authors[i].commits, self.authors[i].insertions, self.authors[i].deletions)
            },
            None => (0, 0, 0),
        };
        if ac as u64 + 1 > 0xFFFF_FFFF || ai as u64 + commit.insertions as u64 > 0xFFFF_FFFF
            || ad as u64 + commit.deletions as u64 > 0xFFFF_FFFF {
            return false;
        }
        let date_chars = chars_of(commit.date.as_str());
        let ts = match parse_i64_chars(&date_chars) {
            Some(ts) => ts,
            None => {
                return true;
            },
        };
        let parts = match date_parts(ts) {
            Some(p) => p,
            None => {
                return true;
            },
        };
        let day = match format_day(ts) {
            Some(d) => d,
            None => String::new(),
        };
        let week_id = week_key_string(parts);
        assert(commit_moment(c.date) == Some((ts, parts)));
        assert(day_key(ts) == day@);
        assert(week_key(parts) == week_id@);
        let empty_days: Vec<DayActivity> = Vec::new();
        let empty_weeks: Vec<WeeklyActivity> = Vec::new();
        let (days, weeks) = match found {
            Some(i) => (&self.authors[*i].daily_activity, &self.authors[*i].activity),
            None => (&empty_days, &empty_weeks),
        };
        assert(views(weeks@) == ae.activity) by {
            if found is None {
                assert(views(weeks@) =~= Seq::<WeekView>::empty());
            }
        }
        assert(views(days@) == ae.daily) by {
            if found is None {
                assert(views(days@) =~= Seq::<DayView>::empty());
            }
        }
        let di = find_day(days, &day);
        let dc: u32 = if di < days.len() {
            proof {
                lemma_pos_of(day_dates(views(days@)), day@);
            }
            days[di].commits
        } else {
            0
        };
        assert(dc == day_count(ae.daily, day@));
        if dc as u64 + 1 > 0xFFFF_FFFF {
            return false;
        }
        let wi = find_week(weeks, &week_id);
        let ghost we = week_entry(ae.activity, week_id@);
        let (wc, wins, wdel, mut tf): (u32, u32, u32, Vec<FileChange>) = if wi < weeks.len() {
            proof {
                lemma_pos_of(week_ids(views(weeks@)), week_id@);
            }
            assert(weeks@[wi as int]@ == we);
            (weeks[wi].commits, weeks[wi].insertions, weeks[wi].deletions, copy_changes(&weeks[wi].top_files))
        } else {
            (0, 0, 0, Vec::new())
        };
        assert(views(tf@) == we.top_files) by {
            if wi >= weeks@.len() {
                assert(views(tf@) =~= Seq::<ChangeView>::empty());
            }
        }
        assert(wc == we.commits && wins == we.insertions && wdel == we.deletions);
        if wc as u64 + 1 > 0xFFFF_FFFF || wins as u64 + commit.insertions as u64 > 0xFFFF_FFFF
            || wdel as u64 + commit.deletions as u64 > 0xFFFF_FFFF {
            return false;
        }
        let ghost t0 = we.top_files;
        let ghost cs = views(commit.changes@);
        assert(cs == c.changes);
        assert(add_fits(m, c) == (top_fold_ok(t0, cs) && files_fit(m.files, cs)));
        // the top files, step by step
        let mut j: usize = 0;
        assert(cs.take(0) =~= Seq::<ChangeView>::empty());
        while j < commit.changes.len()
            invariant
                j <= commit.changes@.len(),
                cs == views(commit.changes@),
                add_fits(m, c) == (top_fold_ok(t0, cs) && files_fit(m.files, cs)),
                m == self@,
                c == commit@,
                top_fold_ok(t0, cs.take(j as int)),
                views(tf@) == top_fold(t0, cs.take(j as int)),
            decreases commit.changes@.len() - j,
        {
            assert(cs.take(j + 1).drop_last() =~= cs.take(j as int));
            assert(cs.take(j + 1).last() == commit.changes@[j as int]@);
            if !top_step_ok_exec(&tf, &commit.changes[j]) {
                proof {
                    if top_fold_ok(t0, cs) {
                        lemma_top_fold_ok_prefix(t0, cs, j + 1);
                    }
                }
                return false;
            }
            top_step_exec(&mut tf, &commit.changes[j]);
            j = j + 1;
        }
        assert(cs.take(commit.changes@.len() as int) =~= cs);
        // the file statistics
        let mut j: usize = 0;
        while j < commit.changes.len()
            invariant
                j <= commit.changes@.len(),
                cs == views(commit.changes@),
                add_fits(m, c) == files_fit(m.files, cs),
                m == self@,
                c == commit@,
                indexes(file_paths(m.files), self.file_index@),
                forall|jj: int| 0 <= jj < j ==> {
                    let p = #[trigger] cs[jj].path;
                    let f = file_entry(m.files, p);
                    &&& f.commits + count_path(cs, p) <= u32::MAX
                    &&& f.insertions + ins_path(cs, p) <= u32::MAX
                    &&& f.deletions + del_path(cs, p) <= u32::MAX
                },
            decreases commit.changes@.len() - j,
        {
            let p = &commit.changes[j].path;
            assert(cs[j as int].path == p@);
            proof {
                lemma_indexes_pos(file_paths(m.files), self.file_index@, p@);
                lemma_pos_of(file_paths(m.files), p@);
            }
            let (fc, fi, fd): (u32, u32, u32) = match self.file_index.get(p.as_str()) {
                Some(i) => {
                    let i = *i;
                    assert(file_paths(m.files)[i as int] == m.files[i as int].path);
                    assert(self.files@[i as int]@ == file_entry(m.files, p@));
                    (self.files[i].commits, self.files[i].insertions, self.files[i].deletions)
                },
                None => (0, 0, 0),
            };
            let ghost fe = file_entry(m.files, p@);
            assert(fc == fe.commits && fi == fe.insertions && fd == fe.deletions);
            match path_sums(&commit.changes, p) {
                Some(t) => {
                    if fc as u64 + t.0 > 0xFFFF_FFFF || fi as u64 + t.1 > 0xFFFF_FFFF || fd as u64 + t.2 > 0xFFFF_FFFF {
                        assert(!files_fit(m.files, cs));
                        return false;
                    }
                },
                None => {
                    assert(!files_fit(m.files, cs));
                    return false;
                },
            }
            j = j + 1;
        }
        true
    }

    /// Whether `finalize` can rank every week's top files without a churn overflowing `u32`.
    pub fn can_finalize(&self) -> (r: bool)
        ensures
            r == tops_fit(self@),
    {
        let ghost m = self@;
        let mut i: usize = 0;
        while i < self.authors.len()
            invariant
                i <= self.authors@.len(),
                m == self@,
                forall|ii: int, j: int, t: int|
                    0 <= ii < i && 0 <= j < m.authors[ii].activity.len() && 0 <= t < m.authors[ii].activity[j].top_files.len()
                        ==> churn(#[trigger] m.authors[ii].activity[j].top_files[t]) <= u32::MAX,
            decreases self.authors@.len() - i,
        {
            let weeks = &self.authors[i].activity;
            assert(m.authors[i as int].activity == views(weeks@));
            let mut j: usize = 0;
            while j < weeks.len()
                invariant
                    i < self.authors@.len(),
                    j <= weeks@.len(),
                    m == self@,
                    weeks == &self.authors@[i as int].activity,
                    m.authors[i as int].activity == views(weeks@),
                    forall|ii: int, jj: int, t: int|
                        0 <= ii < i && 0 <= jj < m.authors[ii].activity.len() && 0 <= t < m.authors[ii].activity[jj].top_files.len()
                            ==> churn(#[trigger] m.authors[ii].activity[jj].top_files[t]) <= u32::MAX,
                    forall|jj: int, t: int|
                        0 <= jj < j && 0 <= t < m.authors[i as int].activity[jj].top_files.len()
                            ==> churn(#[trigger] m.authors[i as int].activity[jj].top_files[t]) <= u32::MAX,
                decreases weeks@.len() - j,
            {
                let tf = &weeks[j].top_files;
                assert(m.authors[i as int].activity[j as int].top_files == views(tf@));
                let mut t: usize = 0;
                while t < tf.len()
                    invariant
                        i < self.authors@.len(),
                        j < weeks@.len(),
                        t <= tf@.len(),
                        m == self@,
                        m.authors.len() == self.authors@.len(),
                        m.authors[i as int].activity.len() == weeks@.len(),
                        m.authors[i as int].activity[j as int].top_files == views(tf@),
                        forall|tt: int| 0 <= tt < t ==> churn(#[trigger] m.authors[i as int].activity[j as int].top_files[tt]) <= u32::MAX,
                    decreases tf@.len() - t,
                {
                    assert(m.authors[i as int].activity[j as int].top_files[t as int] == tf@[t as int]@);
                    if tf[t].insertions as u64 + tf[t].deletions as u64 > 0xFFFF_FFFF {
                        assert(churn(m.authors[i as int].activity[j as int].top_files[t as int]) > u32::MAX);
                        assert(!tops_fit(m));
                        return false;
                    }
                    t = t + 1;
                }
                j = j + 1;
            }
            i = i + 1;
        }
        true
    }
}


// ---------------------------------------------------------------- final statistics

/// A week as reported: its top files ranked by churn and cut to 15.
pub open spec fn week_final(w: WeekView) -> WeekView {
    WeekView { top_files: truncated(stable_sort::<FileChange>(w.top_files), 15), ..w }
}

/// An author as reported: weeks in id order, each with its final top files, and days in
/// date order.
pub open spec fn author_final(a: AuthorView) -> AuthorView {
    AuthorView {
        activity: stable_sort::<WeeklyActivity>(a.activity).map_values(|w: WeekView| week_final(w)),
        daily: stable_sort::<DayActivity>(a.daily),
        ..a
    }
}

/// A file as reported: its latest commit date (a timestamp) rendered as `%b %d, %Y` when
/// `chrono` can; left as it is otherwise.
pub open spec fn file_final(f: FileStatsView) -> FileStatsView {
    FileStatsView {
        last_updated: match parse_i64(f.last_updated) {
            Some(ts) => match utc_short_text(ts) {
                Some(t) => t,
                None => f.last_updated,
            },
            None => f.last_updated,
        },
        ..f
    }
}

/// The reported authors: each finalized, ranked by commits (ties in the order first seen).
pub open spec fn final_authors(m: AggView) -> Seq<AuthorView> {
    stable_sort::<AuthorStats>(m.authors.map_values(|a: AuthorView| author_final(a)))
}

/// The reported files: each finalized, ranked by commits (ties in the order first seen).
pub open spec fn final_files(m: AggView) -> Seq<FileStatsView> {
    stable_sort::<FileStats>(m.files.map_values(|f: FileStatsView| file_final(f)))
}

/// Finalizes one week's top files.
fn finalize_week(w: &mut WeeklyActivity)
    ensures
        final(w)@ == week_final(old(w)@),
{
    let mut tfs: Vec<FileChange> = Vec::new();
    core::mem::swap(&mut w.top_files, &mut tfs);
    let mut sorted = stable_sort_vec(tfs);
    let ghost full = views(sorted@);
    sorted.truncate(15);
    assert(views(sorted@) =~= truncated(full, 15));
    w.top_files = sorted;
    assert(w@ =~= week_final(old(w)@));
}

/// Finalizes one author's activity.
fn finalize_author(a: &mut AuthorStats)
    ensures
        final(a)@ == author_final(old(a)@),
{
    let mut acts: Vec<WeeklyActivity> = Vec::new();
    core::mem::swap(&mut a.activity, &mut acts);
    let mut acts = stable_sort_vec(acts);
    let ghost sorted = views(acts@);
    let mut j: usize = 0;
    while j < acts.len()
        invariant
            j <= acts@.len() == sorted.len(),
            forall|k: int| 0 <= k < j ==> #[trigger] acts@[k]@ == week_final(sorted[k]),
            forall|k: int| j <= k < acts@.len() ==> #[trigger] acts@[k]@ == sorted[k],
        decreases acts@.len() - j,
    {
        let mut w = WeeklyActivity { week_id: String::new(), commits: 0, insertions: 0, deletions: 0, top_files: Vec::new() };
        acts.set_and_swap(j, &mut w);
        finalize_week(&mut w);
        acts.set(j, w);
        j = j + 1;
    }
    assert(views(acts@) =~= sorted.map_values(|w: WeekView| week_final(w)));
    a.activity = acts;
    let mut days: Vec<DayActivity> = Vec::new();
    core::mem::swap(&mut a.daily_activity, &mut days);
    a.daily_activity = stable_sort_vec(days);
    assert(a@ =~= author_final(old(a)@));
}

/// Finalizes one file's date.
fn finalize_file(f: &mut FileStats)
    ensures
        final(f)@ == file_final(old(f)@),
{
    let chars = chars_of(f.last_updated.as_str());
    match parse_i64_chars(&chars) {
        Some(ts) => match format_short_day(ts) {
            Some(t) => {
                f.last_updated = t;
            },
            None => {},
        },
        None => {},
    }
}

impl IncrementalAggregator {
    /// The final statistics: authors and files, each finalized and ranked by commits.
    pub fn finalize(self) -> (r: (Vec<AuthorStats>, Vec<FileStats>))
        requires
            tops_fit(self@),
        ensures
            views(r.0@) == final_authors(self@),
            views(r.1@) == final_files(self@),
    {
        let ghost m = self@;
        let IncrementalAggregator { authors, author_index: _, files, file_index: _ } = self;
        let mut authors = authors;
        let mut i: usize = 0;
        while i < authors.len()
            invariant
                i <= authors@.len() == m.authors.len(),
                forall|k: int| 0 <= k < i ==> #[trigger] authors@[k]@ == author_final(m.authors[k]),
                forall|k: int| i <= k < authors@.len() ==> #[trigger] authors@[k]@ == m.authors[k],
            decreases authors@.len() - i,
        {
            let mut a = AuthorStats {
                name: String::new(),
                email: String::new(),
                commits: 0,
                insertions: 0,
                deletions: 0,
                activity: Vec::new(),
                daily_activity: Vec::new(),
            };
            authors.set_and_swap(i, &mut a);
            finalize_author(&mut a);
            authors.set(i, a);
            i = i + 1;
        }
        assert(views(authors@) =~= m.authors.map_values(|a: AuthorView| author_final(a)));
        let authors = stable_sort_vec(authors);
        let mut files = files;
        let mut i: usize = 0;
        while i < files.len()
            invariant
                i <= files@.len() == m.files.len(),
                forall|k: int| 0 <= k < i ==> #[trigger] files@[k]@ == file_final(m.files[k]),
                forall|k: int| i <= k < files@.len() ==> #[trigger] files@[k]@ == m.files[k],
            decreases files@.len() - i,
        {
            let mut f = FileStats {
                path: String::new(),
                commits: 0,
                insertions: 0,
                deletions: 0,
                total_lines: 0,
                loc: 0,
                last_updated: String::new(),
            };
            files.set_and_swap(i, &mut f);
            finalize_file(&mut f);
            files.set(i, f);
            i = i + 1;
        }
        assert(views(files@) =~= m.files.map_values(|f: FileStatsView| file_final(f)));
        let files = stable_sort_vec(files);
        (authors, files)
    }
}

/// The aggregation of `cs` in order, from the empty one.
pub open spec fn agg_fold(cs: Seq<CommitView>) -> AggView
    decreases cs.len(),
{
    if cs.len() == 0 {
        empty_agg()
    } else {
        add_model(agg_fold(cs.drop_last()), cs.last())
    }
}

/// Whether aggregating `cs` in order keeps every count within `u32`.
pub open spec fn agg_fits(cs: Seq<CommitView>) -> bool
    decreases cs.len(),
{
    cs.len() == 0 || (agg_fits(cs.drop_last()) && add_fits(agg_fold(cs.drop_last()), cs.last()))
}

/// Whether aggregating `cs` and reporting the result keeps every count within `u32`.
pub open spec fn stats_fit(cs: Seq<CommitView>) -> bool {
    agg_fits(cs) && tops_fit(agg_fold(cs))
}

/// Prefixes of fitting commit sequences fit.
proof fn lemma_agg_fits_prefix(cs: Seq<CommitView>, k: int)
    requires
        0 <= k <= cs.len(),
        agg_fits(cs),
    ensures
        agg_fits(cs.take(k)),
    decreases cs.len() - k,
{
    if k < cs.len() {
        lemma_agg_fits_prefix(cs, k + 1);
        assert(cs.take(k + 1).drop_last() =~= cs.take(k));
    } else {
        assert(cs.take(k) =~= cs);
    }
}

/// Aggregates `commits` in order.
fn aggregate(commits: &[Commit]) -> (r: IncrementalAggregator)
    requires
        agg_fits(commit_views(commits@)),
    ensures
        r.wf(),
        r@ == agg_fold(commit_views(commits@)),
{
    let ghost cs = commit_views(commits@);
    let mut agg = IncrementalAggregator::new();
    let mut i: usize = 0;
    assert(cs.take(0) =~= Seq::<CommitView>::empty());
    while i < commits.len()
        invariant
            i <= commits@.len() == cs.len(),
            cs == commit_views(commits@),
            agg_fits(cs),
            agg.wf(),
            agg@ == agg_fold(cs.take(i as int)),
        decreases commits@.len() - i,
    {
        proof {
            lemma_agg_fits_prefix(cs, i + 1);
            assert(cs.take(i + 1).drop_last() =~= cs.take(i as int));
            assert(cs.take(i + 1).last() == commits@[i as int]@);
        }
        agg.add_commit(&commits[i]);
        i = i + 1;
    }
    assert(cs.take(commits@.len() as int) =~= cs);
    agg
}

/// Whether `commits` aggregate and report without overflow, checked.
fn stats_fit_exec(commits: &[Commit]) -> (r: bool)
    ensures
        r == stats_fit(commit_views(commits@)),
{
    let ghost cs = commit_views(commits@);
    let mut agg = IncrementalAggregator::new();
    let mut i: usize = 0;
    assert(cs.take(0) =~= Seq::<CommitView>::empty());
    while i < commits.len()
        invariant
            i <= commits@.len() == cs.len(),
            cs == commit_views(commits@),
            agg_fits(cs.take(i as int)),
            agg.wf(),
            agg@ == agg_fold(cs.take(i as int)),
        decreases commits@.len() - i,
    {
        assert(cs.take(i + 1).drop_last() =~= cs.take(i as int));
        assert(cs.take(i + 1).last() == commits@[i as int]@);
        if !agg.can_add_commit(&commits[i]) {
            proof {
                if agg_fits(cs) {
                    lemma_agg_fits_prefix(cs, i + 1);
                }
            }
            return false;
        }
        agg.add_commit(&commits[i]);
        i = i + 1;
    }
    assert(cs.take(commits@.len() as int) =~= cs);
    agg.can_finalize()
}

/// The author statistics of `commits`, ranked by commits.
pub fn compute_author_stats(commits: &[Commit]) -> (r: Vec<AuthorStats>)
    requires
        stats_fit(commit_views(commits@)),
    ensures
        views(r@) == final_authors(agg_fold(commit_views(commits@))),
{
    let agg = aggregate(commits);
    agg.finalize().0
}

/// The file statistics of `commits`, ranked by commits.
pub fn compute_file_stats(commits: &[Commit]) -> (r: Vec<FileStats>)
    requires
        stats_fit(commit_views(commits@)),
    ensures
        views(r@) == final_files(agg_fold(commit_views(commits@))),
{
    let agg = aggregate(commits);
    agg.finalize().1
}

/// `compute_author_stats` when no count overflows `u32`, `None` otherwise.
pub fn try_compute_author_stats(commits: &[Commit]) -> (r: Option<Vec<AuthorStats>>)
    ensures
        r is Some <==> stats_fit(commit_views(commits@)),
        r matches Some(v) ==> views(v@) == final_authors(agg_fold(commit_views(commits@))),
{
    if stats_fit_exec(commits) {
        Some(compute_author_stats(commits))
    } else {
        None
    }
}

/// `compute_file_stats` when no count overflows `u32`, `None` otherwise.
pub fn try_compute_file_stats(commits: &[Commit]) -> (r: Option<Vec<FileStats>>)
    ensures
        r is Some <==> stats_fit(commit_views(commits@)),
        r matches Some(v) ==> views(v@) == final_files(agg_fold(commit_views(commits@))),
{
    if stats_fit_exec(commits) {
        Some(compute_file_stats(commits))
    } else {
        None
    }
}

// ---------------------------------------------------------------- what the statistics count

/// How many of the commits `cs` were made with e-mail `e`.
pub open spec fn commits_by(cs: Seq<CommitView>, e: Seq<char>) -> nat
    decreases cs.len(),
{
    if cs.len() == 0 {
        0
    } else {
        commits_by(cs.drop_last(), e) + if cs.last().author_email == e { 1nat } else { 0nat }
    }
}

/// The insertions of the commits of `cs` made with e-mail `e`.
pub open spec fn insertions_by(cs: Seq<CommitView>, e: Seq<char>) -> nat
    decreases cs.len(),
{
    if cs.len() == 0 {
        0
    } else {
        insertions_by(cs.drop_last(), e) + if cs.last().author_email == e { cs.last().insertions } else { 0nat }
    }
}

/// The deletions of the commits of `cs` made with e-mail `e`.
pub open spec fn deletions_by(cs: Seq<CommitView>, e: Seq<char>) -> nat
    decreases cs.len(),
{
    if cs.len() == 0 {
        0
    } else {
        deletions_by(cs.drop_last(), e) + if cs.last().author_email == e { cs.last().deletions } else { 0nat }
    }
}

/// The author name of the first of the commits `cs` made with e-mail `e`.
pub open spec fn first_name(cs: Seq<CommitView>, e: Seq<char>) -> Seq<char>
    decreases cs.len(),
{
    if cs.len() == 0 {
        Seq::empty()
    } else if commits_by(cs.drop_last(), e) > 0 {
        first_name(cs.drop_last(), e)
    } else {
        cs.last().author_name
    }
}

/// The aggregation's entry for e-mail `e` holds the totals of that e-mail's commits, and
/// there is an entry exactly for the e-mails that made a commit.
proof fn lemma_agg_author_totals(cs: Seq<CommitView>, e: Seq<char>)
    ensures
        ({
            let a = agg_fold(cs).authors;
            let k = pos_of(emails(a), e);
            &&& k >= 0 ==> a[k].email == e && a[k].commits == commits_by(cs, e)
                && a[k].insertions == insertions_by(cs, e) && a[k].deletions == deletions_by(cs, e)
                && a[k].name == first_name(cs, e)
            &&& k >= 0 <==> commits_by(cs, e) > 0
            &&& k < 0 ==> insertions_by(cs, e) == 0 && deletions_by(cs, e) == 0
        }),
    decreases cs.len(),
{
    let a = agg_fold(cs).authors;
    lemma_pos_of(emails(a), e);
    if pos_of(emails(a), e) >= 0 {
        assert(emails(a)[pos_of(emails(a), e)] == a[pos_of(emails(a), e)].email);
    }
    if cs.len() > 0 {
        let prev = cs.drop_last();
        let c = cs.last();
        lemma_agg_author_totals(prev, e);
        let a0 = agg_fold(prev).authors;
        let ps = emails(a0);
        let kc = pos_of(ps, c.author_email);
        let ent = author_entry(a0, c);
        let na = author_after(ent, c);
        assert(na.email == ent.email && na.commits == ent.commits + 1);
        assert(na.insertions == ent.insertions + c.insertions && na.deletions == ent.deletions + c.deletions);
        lemma_pos_of(ps, c.author_email);
        lemma_pos_of(ps, e);
        let k0 = pos_of(ps, e);
        let k = pos_of(emails(a), e);
        if e == c.author_email {
            assert(commits_by(cs, e) == commits_by(prev, e) + 1);
            assert(insertions_by(cs, e) == insertions_by(prev, e) + c.insertions);
            assert(deletions_by(cs, e) == deletions_by(prev, e) + c.deletions);
        } else {
            assert(commits_by(cs, e) == commits_by(prev, e));
            assert(insertions_by(cs, e) == insertions_by(prev, e));
            assert(deletions_by(cs, e) == deletions_by(prev, e));
        }
        if kc >= 0 {
            assert(ps[kc] == a0[kc].email);
            assert(ent == a0[kc]);
            assert(a == a0.update(kc, na));
            assert(emails(a) =~= ps.update(kc, ps[kc]));
            lemma_pos_of_update_same(ps, kc, e);
            assert(k == k0);
            if e == c.author_email {
                assert(k == kc);
                assert(a[k] == na);
            } else if k0 >= 0 {
                assert(ps[k0] == a0[k0].email);
                assert(k0 != kc);
                assert(a[k] == a0[k0]);
            }
        } else {
            assert(ent.commits == 0 && ent.insertions == 0 && ent.deletions == 0 && ent.email == c.author_email);
            assert(a == a0.push(na));
            assert(emails(a) =~= ps.push(c.author_email));
            lemma_pos_of_push(ps, c.author_email, e);
            if k0 >= 0 {
                assert(ps[k0] == a0[k0].email);
                assert(k == k0);
                assert(a[k] == a0[k0]);
            } else if e == c.author_email {
                assert(k == ps.len());
                assert(a[k] == na);
            } else {
                assert(k < 0);
            }
        }
    }
}

/// Every author reported for the commits `cs` carries the totals of exactly the commits made
/// with that e-mail (their number, insertions and deletions), and has made at least one;
/// every commit's author is reported, under one entry only.
pub proof fn law_author_totals(cs: Seq<CommitView>)
    ensures
        forall|i: int| 0 <= i < final_authors(agg_fold(cs)).len() ==> {
            let a = #[trigger] final_authors(agg_fold(cs))[i];
            &&& a.commits == commits_by(cs, a.email)
            &&& a.insertions == insertions_by(cs, a.email)
            &&& a.deletions == deletions_by(cs, a.email)
            &&& a.name == first_name(cs, a.email)
            &&& a.commits > 0
        },
        forall|j: int| 0 <= j < cs.len() ==> emails(final_authors(agg_fold(cs))).contains(#[trigger] cs[j].author_email),
        commits_total(final_authors(agg_fold(cs))) == cs.len(),
        forall|i: int, j: int|
            0 <= i < j < final_authors(agg_fold(cs)).len()
                ==> #[trigger] final_authors(agg_fold(cs))[i].email != #[trigger] final_authors(agg_fold(cs))[j].email,
{
    let m = agg_fold(cs);
    let pre = m.authors.map_values(|a: AuthorView| author_final(a));
    let s = final_authors(m);
    crate::seqs::lemma_stable_sort_permutes::<AuthorStats>(pre);
    lemma_commits_total_agg(cs);
    lemma_commits_total_final(m.authors);
    assert forall|i: int| 0 <= i < s.len() implies {
        let a = #[trigger] s[i];
        &&& a.commits == commits_by(cs, a.email)
        &&& a.insertions == insertions_by(cs, a.email)
        &&& a.deletions == deletions_by(cs, a.email)
        &&& a.name == first_name(cs, a.email)
        &&& a.commits > 0
    } by {
        assert(s.contains(s[i]));
        lemma_stable_sort_contains::<AuthorStats>(pre, s[i]);
        let k = choose|k: int| 0 <= k < pre.len() && pre[k] == s[i];
        let e = m.authors[k].email;
        lemma_agg_author_totals(cs, e);
        assert(emails(m.authors)[k] == e);
        lemma_pos_of(emails(m.authors), e);
        let kk = pos_of(emails(m.authors), e);
        lemma_indexes_agg(cs);
        assert(emails(m.authors)[kk] == e);
        assert(kk == k);
    }
    assert forall|j: int| 0 <= j < cs.len() implies emails(s).contains(#[trigger] cs[j].author_email) by {
        let e = cs[j].author_email;
        lemma_commits_by_member(cs, j);
        lemma_agg_author_totals(cs, e);
        let k = pos_of(emails(m.authors), e);
        lemma_pos_of(emails(m.authors), e);
        assert(pre[k] == author_final(m.authors[k]));
        assert(pre.contains(pre[k]));
        lemma_stable_sort_contains::<AuthorStats>(pre, pre[k]);
        let i = choose|i: int| 0 <= i < s.len() && s[i] == pre[k];
        assert(emails(s)[i] == e);
    }
    assert forall|i: int, j: int| 0 <= i < j < s.len() implies #[trigger] s[i].email != #[trigger] s[j].email by {
        lemma_stable_sort_distinct_emails(cs, i, j);
    }
}

/// The commits of the authors `a`, summed.
pub open spec fn commits_total(a: Seq<AuthorView>) -> nat
    decreases a.len(),
{
    if a.len() == 0 {
        0
    } else {
        commits_total(a.drop_last()) + a.last().commits
    }
}

/// Sums over a concatenation add up.
proof fn lemma_commits_total_add(a: Seq<AuthorView>, b: Seq<AuthorView>)
    ensures
        commits_total(a + b) == commits_total(a) + commits_total(b),
    decreases b.len(),
{
    if b.len() == 0 {
        assert(a + b =~= a);
    } else {
        lemma_commits_total_add(a, b.drop_last());
        assert((a + b).drop_last() =~= a + b.drop_last());
    }
}

/// Replacing one author changes the sum by the difference.
proof fn lemma_commits_total_update(a: Seq<AuthorView>, k: int, x: AuthorView)
    requires
        0 <= k < a.len(),
    ensures
        commits_total(a.update(k, x)) + a[k].commits == commits_total(a) + x.commits,
    decreases a.len(),
{
    if k == a.len() - 1 {
        assert(a.update(k, x).drop_last() =~= a.drop_last());
    } else {
        lemma_commits_total_update(a.drop_last(), k, x);
        assert(a.update(k, x).drop_last() =~= a.drop_last().update(k, x));
    }
}

/// Every commit is counted once among the aggregation's authors.
proof fn lemma_commits_total_agg(cs: Seq<CommitView>)
    ensures
        commits_total(agg_fold(cs).authors) == cs.len(),
    decreases cs.len(),
{
    if cs.len() > 0 {
        let prev = cs.drop_last();
        let c = cs.last();
        lemma_commits_total_agg(prev);
        let a0 = agg_fold(prev).authors;
        let kc = pos_of(emails(a0), c.author_email);
        lemma_pos_of(emails(a0), c.author_email);
        let na = author_after(author_entry(a0, c), c);
        if kc >= 0 {
            lemma_commits_total_update(a0, kc, na);
        } else {
            assert(a0.push(na).drop_last() =~= a0);
        }
    }
}

/// Finalizing and ranking authors keeps their commits' sum.
proof fn lemma_commits_total_final(a: Seq<AuthorView>)
    ensures
        commits_total(stable_sort::<AuthorStats>(a.map_values(|x: AuthorView| author_final(x)))) == commits_total(a),
    decreases a.len(),
{
    let pre = a.map_values(|x: AuthorView| author_final(x));
    if a.len() > 0 {
        lemma_commits_total_final(a.drop_last());
        assert(pre.drop_last() =~= a.drop_last().map_values(|x: AuthorView| author_final(x)));
        let rest = stable_sort::<AuthorStats>(pre.drop_last());
        let x = pre.last();
        let p = crate::seqs::insert_pos::<AuthorStats>(rest, x);
        crate::seqs::lemma_insert_pos::<AuthorStats>(rest, x);
        crate::seqs::lemma_insert_sorted_at::<AuthorStats>(rest, x, p);
        assert(rest.insert(p, x) =~= rest.take(p) + seq![x] + rest.skip(p));
        assert(rest =~= rest.take(p) + rest.skip(p));
        lemma_commits_total_add(rest.take(p) + seq![x], rest.skip(p));
        lemma_commits_total_add(rest.take(p), seq![x]);
        lemma_commits_total_add(rest.take(p), rest.skip(p));
        assert(seq![x].drop_last() =~= Seq::<AuthorView>::empty());
        assert(commits_total(Seq::<AuthorView>::empty()) == 0);
        assert(seq![x].last() == x);
        assert(commits_total(seq![x]) == x.commits);
        assert(x.commits == a.last().commits);
        assert(stable_sort::<AuthorStats>(pre) == crate::seqs::insert_sorted::<AuthorStats>(rest, x));
        assert(commits_total(rest.insert(p, x)) == commits_total(rest) + x.commits);
    } else {
        assert(pre =~= Seq::<AuthorView>::empty());
    }
}

/// No two entries of an aggregation share an e-mail.
proof fn lemma_indexes_agg(cs: Seq<CommitView>)
    ensures
        emails(agg_fold(cs).authors).no_duplicates(),
    decreases cs.len(),
{
    if cs.len() > 0 {
        let prev = cs.drop_last();
        let c = cs.last();
        lemma_indexes_agg(prev);
        let a0 = agg_fold(prev).authors;
        let ps = emails(a0);
        let kc = pos_of(ps, c.author_email);
        let na = author_after(author_entry(a0, c), c);
        lemma_pos_of(ps, c.author_email);
        if kc >= 0 {
            assert(ps[kc] == a0[kc].email);
            assert(emails(a0.update(kc, na)) =~= ps);
        } else {
            let t = emails(a0.push(na));
            assert(t =~= ps.push(c.author_email));
            assert forall|i: int, j: int| 0 <= i < t.len() && 0 <= j < t.len() && i != j implies t[i] != t[j] by {
                if i < ps.len() && j < ps.len() {
                    assert(t[i] == ps[i] && t[j] == ps[j]);
                } else if i < ps.len() {
                    assert(t[i] == ps[i]);
                } else if j < ps.len() {
                    assert(t[j] == ps[j]);
                }
            }
        }
    }
}

/// A commit's e-mail made at least one of the commits.
proof fn lemma_commits_by_member(cs: Seq<CommitView>, j: int)
    requires
        0 <= j < cs.len(),
    ensures
        commits_by(cs, cs[j].author_email) > 0,
    decreases cs.len(),
{
    if j < cs.len() - 1 {
        assert(cs.drop_last()[j] == cs[j]);
        lemma_commits_by_member(cs.drop_last(), j);
    }
}

/// No two reported authors share an e-mail.
proof fn lemma_stable_sort_distinct_emails(cs: Seq<CommitView>, i: int, j: int)
    requires
        0 <= i < j < final_authors(agg_fold(cs)).len(),
    ensures
        final_authors(agg_fold(cs))[i].email != final_authors(agg_fold(cs))[j].email,
{
    let m = agg_fold(cs);
    let pre = m.authors.map_values(|a: AuthorView| author_final(a));
    let s = final_authors(m);
    lemma_indexes_agg(cs);
    assert forall|a: int, b: int| 0 <= a < pre.len() && 0 <= b < pre.len() && a != b implies pre[a].email != pre[b].email by {
        assert(emails(m.authors)[a] == pre[a].email);
        assert(emails(m.authors)[b] == pre[b].email);
    }
    assert(pre.no_duplicates()) by {
        assert forall|a: int, b: int| 0 <= a < pre.len() && 0 <= b < pre.len() && a != b implies pre[a] != pre[b] by {
            assert(pre[a].email != pre[b].email);
        }
    }
    crate::seqs::lemma_stable_sort_no_duplicates::<AuthorStats>(pre);
    assert(s[i] != s[j]);
    assert(s.contains(s[i]) && s.contains(s[j]));
    lemma_stable_sort_contains::<AuthorStats>(pre, s[i]);
    lemma_stable_sort_contains::<AuthorStats>(pre, s[j]);
    let ki = choose|k: int| 0 <= k < pre.len() && pre[k] == s[i];
    let kj = choose|k: int| 0 <= k < pre.len() && pre[k] == s[j];
    assert(ki != kj);
}

/// How many changes the commits `cs` with a representable date make to path `p` (the
/// commits whose changes the file statistics count).
pub open spec fn changes_to(cs: Seq<CommitView>, p: Seq<char>) -> nat
    decreases cs.len(),
{
    if cs.len() == 0 {
        0
    } else {
        changes_to(cs.drop_last(), p) + if commit_moment(cs.last().date) is Some {
            count_path(cs.last().changes, p)
        } else {
            0nat
        }
    }
}

/// The insertions of those changes to path `p`.
pub open spec fn insertions_to(cs: Seq<CommitView>, p: Seq<char>) -> nat
    decreases cs.len(),
{
    if cs.len() == 0 {
        0
    } else {
        insertions_to(cs.drop_last(), p) + if commit_moment(cs.last().date) is Some {
            ins_path(cs.last().changes, p)
        } else {
            0nat
        }
    }
}

/// The deletions of those changes to path `p`.
pub open spec fn deletions_to(cs: Seq<CommitView>, p: Seq<char>) -> nat
    decreases cs.len(),
{
    if cs.len() == 0 {
        0
    } else {
        deletions_to(cs.drop_last(), p) + if commit_moment(cs.last().date) is Some {
            del_path(cs.last().changes, p)
        } else {
            0nat
        }
    }
}

/// The later of two dates in text order (`b` when `a` sorts before it).
pub open spec fn later(a: Seq<char>, b: Seq<char>) -> Seq<char> {
    if seq_lt(a, b) {
        b
    } else {
        a
    }
}

/// The latest date, in text order, of the commits of `cs` with a representable date that
/// change path `p`; empty when there is none.
pub open spec fn latest_to(cs: Seq<CommitView>, p: Seq<char>) -> Seq<char>
    decreases cs.len(),
{
    if cs.len() == 0 {
        Seq::empty()
    } else if commit_moment(cs.last().date) is Some && count_path(cs.last().changes, p) > 0 {
        later(latest_to(cs.drop_last(), p), cs.last().date)
    } else {
        latest_to(cs.drop_last(), p)
    }
}

/// How a file's latest commit date reads in a report: `%b %d, %Y` when it is a timestamp
/// that `chrono` can represent, as it is otherwise.
pub open spec fn shown_date(d: Seq<char>) -> Seq<char> {
    match parse_i64(d) {
        Some(ts) => match utc_short_text(ts) {
            Some(t) => t,
            None => d,
        },
        None => d,
    }
}

/// The per-path sums grow by the change pushed.
proof fn lemma_path_sums_push(chs: Seq<ChangeView>, x: ChangeView, q: Seq<char>)
    ensures
        count_path(chs.push(x), q) == count_path(chs, q) + if x.path == q { 1nat } else { 0nat },
        ins_path(chs.push(x), q) == ins_path(chs, q) + if x.path == q { x.insertions } else { 0nat },
        del_path(chs.push(x), q) == del_path(chs, q) + if x.path == q { x.deletions } else { 0nat },
    decreases chs.len(),
{
    if chs.len() > 0 {
        lemma_path_sums_push(chs.drop_first(), x, q);
        assert(chs.push(x).drop_first() =~= chs.drop_first().push(x));
        assert(chs.push(x)[0] == chs[0]);
    } else {
        let e = Seq::<ChangeView>::empty();
        assert(chs.push(x).drop_first() =~= e);
        assert(chs.push(x)[0] == x);
        assert(count_path(e, q) == 0 && ins_path(e, q) == 0 && del_path(e, q) == 0);
    }
}

/// Counting changes in adds them to each path's totals, and keeps one entry per path.
proof fn lemma_files_fold_totals(files: Seq<FileStatsView>, chs: Seq<ChangeView>, date: Seq<char>, q: Seq<char>)
    ensures
        file_entry(files_fold(files, chs, date), q).commits == file_entry(files, q).commits + count_path(chs, q),
        file_entry(files_fold(files, chs, date), q).insertions == file_entry(files, q).insertions + ins_path(chs, q),
        file_entry(files_fold(files, chs, date), q).deletions == file_entry(files, q).deletions + del_path(chs, q),
        pos_of(file_paths(files_fold(files, chs, date)), q) >= 0 <==> (pos_of(file_paths(files), q) >= 0 || count_path(chs, q) > 0),
        file_paths(files).no_duplicates() ==> file_paths(files_fold(files, chs, date)).no_duplicates(),
        file_entry(files_fold(files, chs, date), q).total_lines == file_entry(files, q).total_lines,
        file_entry(files_fold(files, chs, date), q).loc == file_entry(files, q).loc,
        file_entry(files_fold(files, chs, date), q).last_updated == if count_path(chs, q) > 0 {
            later(file_entry(files, q).last_updated, date)
        } else {
            file_entry(files, q).last_updated
        },
    decreases chs.len(),
{
    if chs.len() > 0 {
        let init = chs.drop_last();
        let x = chs.last();
        lemma_files_fold_totals(files, init, date, q);
        crate::strutil::lemma_seq_lt_irreflexive(date);
        lemma_path_sums_push(init, x, q);
        assert(init.push(x) =~= chs);
        let mid = files_fold(files, init, date);
        lemma_file_entry_step(mid, x, date, q);
        lemma_pos_of(file_paths(mid), x.path);
        lemma_pos_of_push(file_paths(mid), x.path, q);
        if file_paths(files).no_duplicates() && pos_of(file_paths(mid), x.path) < 0 {
            lemma_push_new(file_paths(mid), x.path);
        }
    }
}

/// The aggregation's statistics for path `p` count exactly the changes to `p` of the commits
/// with a representable date; there is an entry exactly for the paths they change, one each.
proof fn lemma_agg_file_totals(cs: Seq<CommitView>, q: Seq<char>)
    ensures
        file_entry(agg_fold(cs).files, q).commits == changes_to(cs, q),
        file_entry(agg_fold(cs).files, q).insertions == insertions_to(cs, q),
        file_entry(agg_fold(cs).files, q).deletions == deletions_to(cs, q),
        pos_of(file_paths(agg_fold(cs).files), q) >= 0 <==> changes_to(cs, q) > 0,
        file_paths(agg_fold(cs).files).no_duplicates(),
        file_entry(agg_fold(cs).files, q).total_lines == 0,
        file_entry(agg_fold(cs).files, q).loc == 0,
        file_entry(agg_fold(cs).files, q).last_updated == latest_to(cs, q),
    decreases cs.len(),
{
    if cs.len() == 0 {
        assert(file_paths(agg_fold(cs).files) =~= Seq::<Seq<char>>::empty());
        lemma_pos_of(file_paths(agg_fold(cs).files), q);
    } else {
        let prev = cs.drop_last();
        let c = cs.last();
        lemma_agg_file_totals(prev, q);
        if commit_moment(c.date) is Some {
            lemma_files_fold_totals(agg_fold(prev).files, c.changes, c.date, q);
        }
    }
}

/// Every file reported for the commits `cs` carries the totals of exactly the changes made
/// to its path by the commits with a representable date (their number, insertions and
/// deletions), and was changed at least once; every path so changed is reported, under one
/// entry only.
pub proof fn law_file_totals(cs: Seq<CommitView>)
    ensures
        forall|i: int| 0 <= i < final_files(agg_fold(cs)).len() ==> {
            let f = #[trigger] final_files(agg_fold(cs))[i];
            &&& f.commits == changes_to(cs, f.path)
            &&& f.insertions == insertions_to(cs, f.path)
            &&& f.deletions == deletions_to(cs, f.path)
            &&& f.total_lines == 0 && f.loc == 0
            &&& f.last_updated == shown_date(latest_to(cs, f.path))
            &&& f.commits > 0
        },
        forall|q: Seq<char>| #[trigger] changes_to(cs, q) > 0 ==> file_paths(final_files(agg_fold(cs))).contains(q),
        forall|i: int, j: int|
            0 <= i < j < final_files(agg_fold(cs)).len()
                ==> #[trigger] final_files(agg_fold(cs))[i].path != #[trigger] final_files(agg_fold(cs))[j].path,
{
    let m = agg_fold(cs);
    let pre = m.files.map_values(|f: FileStatsView| file_final(f));
    let s = final_files(m);
    let ps = file_paths(m.files);
    lemma_agg_file_totals(cs, Seq::empty());
    assert forall|i: int| 0 <= i < s.len() implies {
        let f = #[trigger] s[i];
        &&& f.commits == changes_to(cs, f.path)
        &&& f.insertions == insertions_to(cs, f.path)
        &&& f.deletions == deletions_to(cs, f.path)
        &&& f.total_lines == 0 && f.loc == 0
        &&& f.last_updated == shown_date(latest_to(cs, f.path))
        &&& f.commits > 0
    } by {
        assert(s.contains(s[i]));
        lemma_stable_sort_contains::<FileStats>(pre, s[i]);
        let k = choose|k: int| 0 <= k < pre.len() && pre[k] == s[i];
        let p = m.files[k].path;
        lemma_agg_file_totals(cs, p);
        assert(ps[k] == p);
        lemma_pos_of(ps, p);
        let kk = pos_of(ps, p);
        assert(ps[kk] == p);
        assert(kk == k);
    }
    assert forall|q: Seq<char>| #[trigger] changes_to(cs, q) > 0 implies file_paths(s).contains(q) by {
        lemma_agg_file_totals(cs, q);
        lemma_pos_of(ps, q);
        let k = pos_of(ps, q);
        assert(ps[k] == m.files[k].path);
        assert(pre[k] == file_final(m.files[k]));
        assert(pre.contains(pre[k]));
        lemma_stable_sort_contains::<FileStats>(pre, pre[k]);
        let i = choose|i: int| 0 <= i < s.len() && s[i] == pre[k];
        assert(file_paths(s)[i] == q);
    }
    assert forall|i: int, j: int| 0 <= i < j < s.len() implies #[trigger] s[i].path != #[trigger] s[j].path by {
        assert forall|a: int, b: int| 0 <= a < pre.len() && 0 <= b < pre.len() && a != b implies pre[a].path != pre[b].path by {
            assert(ps[a] == pre[a].path && ps[b] == pre[b].path);
        }
        assert(pre.no_duplicates()) by {
            assert forall|a: int, b: int| 0 <= a < pre.len() && 0 <= b < pre.len() && a != b implies pre[a] != pre[b] by {
                assert(pre[a].path != pre[b].path);
            }
        }
        crate::seqs::lemma_stable_sort_no_duplicates::<FileStats>(pre);
        assert(s[i] != s[j]);
        assert(s.contains(s[i]) && s.contains(s[j]));
        lemma_stable_sort_contains::<FileStats>(pre, s[i]);
        lemma_stable_sort_contains::<FileStats>(pre, s[j]);
        let ki = choose|k: int| 0 <= k < pre.len() && pre[k] == s[i];
        let kj = choose|k: int| 0 <= k < pre.len() && pre[k] == s[j];
        assert(ki != kj);
    }
}

/// The insertions of the changes `chs`, summed.
pub open spec fn change_insertions(chs: Seq<ChangeView>) -> nat
    decreases chs.len(),
{
    if chs.len() == 0 {
        0
    } else {
        change_insertions(chs.drop_last()) + chs.last().insertions
    }
}

/// The deletions of the changes `chs`, summed.
pub open spec fn change_deletions(chs: Seq<ChangeView>) -> nat
    decreases chs.len(),
{
    if chs.len() == 0 {
        0
    } else {
        change_deletions(chs.drop_last()) + chs.last().deletions
    }
}

/// Whether commit `c` is one that the parser can report: its totals are the sums over its
/// changes, and each change is to a counted, not excluded file.
pub open spec fn well_counted(exts: Seq<Seq<char>>, rules: Seq<(FilterType, Seq<char>)>, c: CommitView) -> bool {
    &&& c.insertions == change_insertions(c.changes)
    &&& c.deletions == change_deletions(c.changes)
    &&& forall|j: int| 0 <= j < c.changes.len()
        ==> extension_ok(exts, (#[trigger] c.changes[j]).path) && !path_excluded_by(rules, c.changes[j].path)
}

/// What the parser's state always satisfies: the commit under way is well counted, and it
/// has changes once it is marked as touching a counted file.
pub open spec fn state_ok(exts: Seq<Seq<char>>, rules: Seq<(FilterType, Seq<char>)>, st: ParseState) -> bool {
    match st.0 {
        Some(c) => well_counted(exts, rules, c) && (st.1 ==> c.changes.len() > 0),
        None => true,
    }
}

/// One parser step keeps the state sound, and what it completes is well counted and has
/// changes.
proof fn lemma_parse_step_ok(exts: Seq<Seq<char>>, rules: Seq<(FilterType, Seq<char>)>, st: ParseState, raw: Seq<char>)
    requires
        state_ok(exts, rules, st),
    ensures
        state_ok(exts, rules, parse_step(exts, rules, st, raw).0),
        parse_step(exts, rules, st, raw).1 matches Some(c) ==> well_counted(exts, rules, c) && c.changes.len() > 0,
{
    let line = trim(raw);
    if line.len() > 0 && !has_prefix(line, commit_prefix()) {
        match st.0 {
            Some(c) => {
                let parts = split_ws(line);
                if parts.len() >= 3 && extension_ok(exts, parts[2]) && !path_excluded_by(rules, parts[2]) {
                    let next = parse_step(exts, rules, st, raw).0.0->0;
                    let ch = ChangeView { path: parts[2], insertions: numstat_count(parts[0]), deletions: numstat_count(parts[1]) };
                    assert(next.changes == c.changes.push(ch));
                    assert(next.changes.drop_last() =~= c.changes);
                    assert forall|j: int| 0 <= j < next.changes.len()
                        implies extension_ok(exts, (#[trigger] next.changes[j]).path) && !path_excluded_by(rules, next.changes[j].path) by {
                        if j < c.changes.len() {
                            assert(next.changes[j] == c.changes[j]);
                        }
                    }
                }
            },
            None => {},
        }
    } else if line.len() > 0 {
        let parts = splitn(line, 6, '|');
        if parts.len() == 6 && !header_excluded(rules, parts) {
            assert(header_commit(parts).changes =~= Seq::<ChangeView>::empty());
        }
    }
}

/// The parser's state after any lines is sound, and every commit it completed is well
/// counted and has changes.
proof fn lemma_parse_prefix_ok(exts: Seq<Seq<char>>, rules: Seq<(FilterType, Seq<char>)>, ls: Seq<Seq<char>>)
    ensures
        state_ok(exts, rules, parse_prefix(exts, rules, ls).0),
        forall|i: int| 0 <= i < parse_prefix(exts, rules, ls).1.len() ==> {
            let c = #[trigger] parse_prefix(exts, rules, ls).1[i];
            well_counted(exts, rules, c) && c.changes.len() > 0
        },
    decreases ls.len(),
{
    if ls.len() > 0 {
        let before = parse_prefix(exts, rules, ls.drop_last());
        lemma_parse_prefix_ok(exts, rules, ls.drop_last());
        lemma_parse_step_ok(exts, rules, before.0, ls.last());
        let step = parse_step(exts, rules, before.0, ls.last());
        let done = parse_prefix(exts, rules, ls).1;
        assert forall|i: int| 0 <= i < done.len() implies {
            let c = #[trigger] done[i];
            well_counted(exts, rules, c) && c.changes.len() > 0
        } by {
            if i < before.1.len() {
                assert(done[i] == before.1[i]);
            }
        }
    }
}

/// Every commit parsed from a `git log --numstat` text touches at least one counted file;
/// its insertions and deletions are the sums over its changes, and each change is to a file
/// with a counted extension that no rule excludes.
pub proof fn law_parsed_commits_counted(exts: Seq<Seq<char>>, rules: Seq<(FilterType, Seq<char>)>, text: Seq<char>)
    ensures
        forall|i: int| 0 <= i < parsed_commits(exts, rules, text).len() ==> {
            let c = #[trigger] parsed_commits(exts, rules, text)[i];
            well_counted(exts, rules, c) && c.changes.len() > 0
        },
{
    let ls = crate::strutil::lines(text);
    let done = parse_prefix(exts, rules, ls);
    lemma_parse_prefix_ok(exts, rules, ls);
    let all = parsed_commits(exts, rules, text);
    assert forall|i: int| 0 <= i < all.len() implies {
        let c = #[trigger] all[i];
        well_counted(exts, rules, c) && c.changes.len() > 0
    } by {
        if i < done.1.len() {
            assert(all[i] == done.1[i]);
        }
    }
}

// ---------------------------------------------------------------- streaming in runs

/// The parser's state and the commits it completes when fed `ls` in order from state `st`.
pub open spec fn parse_from(
    exts: Seq<Seq<char>>,
    rules: Seq<(FilterType, Seq<char>)>,
    st: ParseState,
    ls: Seq<Seq<char>>,
) -> (ParseState, Seq<CommitView>)
    decreases ls.len(),
{
    if ls.len() == 0 {
        (st, Seq::empty())
    } else {
        let before = parse_from(exts, rules, st, ls.drop_last());
        let step = parse_step(exts, rules, before.0, ls.last());
        (step.0, match step.1 {
            Some(c) => before.1.push(c),
            None => before.1,
        })
    }
}

/// Feeding a parser the lines `a` and then, from the state that left, the lines `b` gives the
/// state and the commits of feeding it `a + b` in one run: the input can be streamed in any
/// pieces.
pub proof fn law_parse_in_runs(
    exts: Seq<Seq<char>>,
    rules: Seq<(FilterType, Seq<char>)>,
    a: Seq<Seq<char>>,
    b: Seq<Seq<char>>,
)
    ensures
        parse_prefix(exts, rules, a + b).0 == parse_from(exts, rules, parse_prefix(exts, rules, a).0, b).0,
        parse_prefix(exts, rules, a + b).1 == parse_prefix(exts, rules, a).1 + parse_from(exts, rules, parse_prefix(exts, rules, a).0, b).1,
    decreases b.len(),
{
    let pa = parse_prefix(exts, rules, a);
    if b.len() == 0 {
        assert(a + b =~= a);
        assert(pa.1 + Seq::<CommitView>::empty() =~= pa.1);
    } else {
        let bl = b.drop_last();
        law_parse_in_runs(exts, rules, a, bl);
        assert((a + b).drop_last() =~= a + bl);
        assert((a + b).last() == b.last());
        let rest = parse_from(exts, rules, pa.0, bl);
        let step = parse_step(exts, rules, rest.0, b.last());
        match step.1 {
            Some(c) => {
                assert(pa.1 + rest.1.push(c) =~= (pa.1 + rest.1).push(c));
            },
            None => {},
        }
    }
}

/// The aggregation `m` with the commits `cs` counted in, in order.
pub open spec fn agg_from(m: AggView, cs: Seq<CommitView>) -> AggView
    decreases cs.len(),
{
    if cs.len() == 0 {
        m
    } else {
        add_model(agg_from(m, cs.drop_last()), cs.last())
    }
}

/// Aggregating the commits `a` and then, from there, the commits `b` gives the aggregation of
/// `a + b`: commits can be streamed into an aggregator in any pieces.
pub proof fn law_aggregation_in_runs(a: Seq<CommitView>, b: Seq<CommitView>)
    ensures
        agg_fold(a + b) == agg_from(agg_fold(a), b),
    decreases b.len(),
{
    if b.len() == 0 {
        assert(a + b =~= a);
    } else {
        law_aggregation_in_runs(a, b.drop_last());
        assert((a + b).drop_last() =~= a + b.drop_last());
        assert((a + b).last() == b.last());
    }
}

// ---------------------------------------------------------------- the memory bound

/// Whether every week of every author in `a` keeps at most 30 top files.
pub open spec fn weeks_bounded(a: Seq<AuthorView>) -> bool {
    forall|i: int, j: int|
        0 <= i < a.len() && 0 <= j < a[i].activity.len() ==> (#[trigger] a[i].activity[j]).top_files.len() <= 30
}

/// Merging one change keeps a week's top files at 30 or fewer.
proof fn lemma_top_step_bounded(tf: Seq<ChangeView>, ch: ChangeView)
    requires
        tf.len() <= 30,
    ensures
        top_step(tf, ch).len() <= 30,
{
    let k = pos_of(change_paths(tf), ch.path);
    lemma_pos_of(change_paths(tf), ch.path);
}

/// Merging changes keeps a week's top files at 30 or fewer.
proof fn lemma_top_fold_bounded(tf: Seq<ChangeView>, chs: Seq<ChangeView>)
    requires
        tf.len() <= 30,
    ensures
        top_fold(tf, chs).len() <= 30,
    decreases chs.len(),
{
    if chs.len() > 0 {
        lemma_top_fold_bounded(tf, chs.drop_last());
        lemma_top_step_bounded(top_fold(tf, chs.drop_last()), chs.last());
    }
}

/// Counting a commit in keeps every week of every author at 30 top files or fewer: what an
/// aggregator holds per week does not grow with the number of commits it has seen.
pub proof fn law_add_keeps_weeks_bounded(m: AggView, c: CommitView)
    requires
        weeks_bounded(m.authors),
    ensures
        weeks_bounded(add_model(m, c).authors),
{
    let a0 = m.authors;
    let kc = pos_of(emails(a0), c.author_email);
    lemma_pos_of(emails(a0), c.author_email);
    let ent = author_entry(a0, c);
    let na = author_after(ent, c);
    assert forall|j: int| 0 <= j < ent.activity.len() implies (#[trigger] ent.activity[j]).top_files.len() <= 30 by {
        if kc >= 0 {
            assert(ent == a0[kc]);
        }
    }
    assert forall|j: int| 0 <= j < na.activity.len() implies (#[trigger] na.activity[j]).top_files.len() <= 30 by {
        match commit_moment(c.date) {
            Some(mo) => {
                let ws = ent.activity;
                let id = week_key(mo.1);
                let k = pos_of(week_ids(ws), id);
                lemma_pos_of(week_ids(ws), id);
                let w = week_entry(ws, id);
                if k >= 0 {
                    assert(w == ws[k]);
                }
                lemma_top_fold_bounded(w.top_files, c.changes);
                if k >= 0 && j != k {
                    assert(na.activity[j] == ws[j]);
                } else if k < 0 && j < ws.len() {
                    assert(na.activity[j] == ws[j]);
                }
            },
            None => {
                assert(na.activity == ent.activity);
            },
        }
    }
    let a1 = add_model(m, c).authors;
    assert forall|i: int, j: int| 0 <= i < a1.len() && 0 <= j < a1[i].activity.len()
        implies (#[trigger] a1[i].activity[j]).top_files.len() <= 30 by {
        if (kc >= 0 && i == kc) || (kc < 0 && i == a0.len()) {
            assert(a1[i] == na);
        } else {
            assert(a1[i] == a0[i]);
        }
    }
}

/// Aggregating any commits keeps every week of every author at 30 top files or fewer.
pub proof fn law_weeks_bounded(cs: Seq<CommitView>)
    ensures
        weeks_bounded(agg_fold(cs).authors),
    decreases cs.len(),
{
    if cs.len() > 0 {
        law_weeks_bounded(cs.drop_last());
        law_add_keeps_weeks_bounded(agg_fold(cs.drop_last()), cs.last());
    }
}

// ---------------------------------------------------------------- what one line does

/// A line acts on the parser exactly as its trimmed form does, and a line that trims to
/// nothing leaves the parser as it was and completes no commit.
pub proof fn law_parse_step_trims(
    exts: Seq<Seq<char>>,
    rules: Seq<(FilterType, Seq<char>)>,
    st: ParseState,
    raw: Seq<char>,
)
    ensures
        parse_step(exts, rules, st, raw) == parse_step(exts, rules, st, trim(raw)),
        trim(raw).len() == 0 ==> parse_step(exts, rules, st, raw) == (st, None::<CommitView>),
{
    crate::strutil::lemma_trim_idempotent(raw);
}

/// Whatever lines a parser has been fed, a line completes a commit only when it (trimmed)
/// starts with `commit|`, or at the end of input; and every commit completed either way
/// touches a counted file, has totals equal to the sums over its changes, and changes only
/// files with a counted extension that no rule excludes.
pub proof fn law_completed_commits(
    exts: Seq<Seq<char>>,
    rules: Seq<(FilterType, Seq<char>)>,
    ls: Seq<Seq<char>>,
    raw: Seq<char>,
)
    ensures
        parse_step(exts, rules, parse_prefix(exts, rules, ls).0, raw).1 matches Some(c)
            ==> has_prefix(trim(raw), commit_prefix()) && well_counted(exts, rules, c) && c.changes.len() > 0,
        finish_step(parse_prefix(exts, rules, ls).0).1 matches Some(c)
            ==> well_counted(exts, rules, c) && c.changes.len() > 0,
{
    lemma_parse_prefix_ok(exts, rules, ls);
    lemma_parse_step_ok(exts, rules, parse_prefix(exts, rules, ls).0, raw);
}

// ---------------------------------------------------------------- days and weeks of an author

/// How many of the commits `cs` were made with e-mail `e` and have a representable date.
pub open spec fn dated_by(cs: Seq<CommitView>, e: Seq<char>) -> nat
    decreases cs.len(),
{
    if cs.len() == 0 {
        0
    } else {
        dated_by(cs.drop_last(), e) + if cs.last().author_email == e && commit_moment(cs.last().date) is Some {
            1nat
        } else {
            0nat
        }
    }
}

/// Whether an author's days and weeks are each listed once, and their commits add up to `n`.
pub open spec fn activity_ok(a: AuthorView, n: nat) -> bool {
    &&& day_dates(a.daily).no_duplicates()
    &&& week_ids(a.activity).no_duplicates()
    &&& crate::seqs::sum_by(a.daily, |d: DayView| d.commits) == n
    &&& crate::seqs::sum_by(a.activity, |w: WeekView| w.commits) == n
}

proof fn lemma_bump_day(days: Seq<DayView>, d: Seq<char>)
    requires
        day_dates(days).no_duplicates(),
    ensures
        day_dates(bump_day(days, d)).no_duplicates(),
        crate::seqs::sum_by(bump_day(days, d), |x: DayView| x.commits) == crate::seqs::sum_by(days, |x: DayView| x.commits) + 1,
{
    let ds = day_dates(days);
    let k = pos_of(ds, d);
    lemma_pos_of(ds, d);
    if k >= 0 {
        assert(ds[k] == days[k].date);
        let x = DayView { date: days[k].date, commits: days[k].commits + 1 };
        crate::seqs::lemma_sum_by_update(days, k, x, |x: DayView| x.commits);
        assert(day_dates(days.update(k, x)) =~= ds.update(k, ds[k]));
        assert(ds.update(k, ds[k]) =~= ds);
    } else {
        let x = DayView { date: d, commits: 1 };
        assert(days.push(x).drop_last() =~= days);
        assert(day_dates(days.push(x)) =~= ds.push(d));
        lemma_push_new(ds, d);
    }
}

proof fn lemma_bump_week(weeks: Seq<WeekView>, id: Seq<char>, c: CommitView)
    requires
        week_ids(weeks).no_duplicates(),
    ensures
        week_ids(bump_week(weeks, id, c)).no_duplicates(),
        crate::seqs::sum_by(bump_week(weeks, id, c), |x: WeekView| x.commits) == crate::seqs::sum_by(weeks, |x: WeekView| x.commits) + 1,
{
    let ws = week_ids(weeks);
    let k = pos_of(ws, id);
    lemma_pos_of(ws, id);
    let w = week_after(week_entry(weeks, id), c);
    if k >= 0 {
        assert(ws[k] == weeks[k].week_id);
        crate::seqs::lemma_sum_by_update(weeks, k, w, |x: WeekView| x.commits);
        assert(week_ids(weeks.update(k, w)) =~= ws.update(k, ws[k]));
        assert(ws.update(k, ws[k]) =~= ws);
    } else {
        assert(weeks.push(w).drop_last() =~= weeks);
        assert(week_ids(weeks.push(w)) =~= ws.push(id));
        lemma_push_new(ws, id);
    }
}

/// Each aggregated author's days and weeks are listed once and add up to the author's dated
/// commits.
proof fn lemma_agg_activity(cs: Seq<CommitView>, e: Seq<char>)
    ensures
        ({
            let a = agg_fold(cs).authors;
            let k = pos_of(emails(a), e);
            &&& k >= 0 ==> activity_ok(a[k], dated_by(cs, e))
            &&& k < 0 ==> dated_by(cs, e) == 0
        }),
    decreases cs.len(),
{
    let a = agg_fold(cs).authors;
    lemma_pos_of(emails(a), e);
    if cs.len() > 0 {
        let prev = cs.drop_last();
        let c = cs.last();
        lemma_agg_activity(prev, e);
        lemma_agg_author_totals(prev, e);
        lemma_agg_author_totals(cs, e);
        let a0 = agg_fold(prev).authors;
        let ps = emails(a0);
        let kc = pos_of(ps, c.author_email);
        let ent = author_entry(a0, c);
        let na = author_after(ent, c);
        lemma_pos_of(ps, c.author_email);
        lemma_pos_of(ps, e);
        let k0 = pos_of(ps, e);
        let k = pos_of(emails(a), e);
        if kc < 0 {
            assert(ent.daily =~= Seq::<DayView>::empty());
            assert(day_dates(ent.daily) =~= Seq::<Seq<char>>::empty());
            assert(week_ids(ent.activity) =~= Seq::<Seq<char>>::empty());
            assert(crate::seqs::sum_by(ent.daily, |d: DayView| d.commits) == 0);
            assert(crate::seqs::sum_by(ent.activity, |w: WeekView| w.commits) == 0);
        } else {
            assert(ps[kc] == a0[kc].email);
            assert(ent == a0[kc]);
        }
        if e == c.author_email {
            assert(activity_ok(ent, dated_by(prev, e)));
            match commit_moment(c.date) {
                Some(mo) => {
                    lemma_bump_day(ent.daily, day_key(mo.0));
                    lemma_bump_week(ent.activity, week_key(mo.1), c);
                },
                None => {},
            }
            assert(activity_ok(na, dated_by(cs, e)));
            if kc >= 0 {
                assert(a == a0.update(kc, na));
                assert(emails(a) =~= ps.update(kc, ps[kc]));
                crate::seqs::lemma_pos_of_update_same(ps, kc, e);
            } else {
                assert(a == a0.push(na));
                assert(emails(a) =~= ps.push(c.author_email));
                lemma_pos_of_push(ps, c.author_email, e);
            }
            assert(a[k] == na);
        } else {
            assert(dated_by(cs, e) == dated_by(prev, e));
            if kc >= 0 {
                assert(a == a0.update(kc, na));
                assert(emails(a) =~= ps.update(kc, ps[kc]));
                crate::seqs::lemma_pos_of_update_same(ps, kc, e);
                if k0 >= 0 {
                    assert(ps[k0] == a0[k0].email);
                    assert(a[k] == a0[k0]);
                }
            } else {
                assert(a == a0.push(na));
                assert(emails(a) =~= ps.push(c.author_email));
                lemma_pos_of_push(ps, c.author_email, e);
                if k0 >= 0 {
                    assert(ps[k0] == a0[k0].email);
                    assert(a[k] == a0[k0]);
                }
            }
        }
    }
}

/// Every reported author lists their days in strictly increasing date order and their weeks
/// in strictly increasing id order; the commits of the days, and those of the weeks, add up
/// to the author's commits with a representable date; each week keeps at most 15 top files,
/// most churn first.
pub proof fn law_author_activity(cs: Seq<CommitView>)
    ensures
        forall|i: int| 0 <= i < final_authors(agg_fold(cs)).len() ==> {
            let a = #[trigger] final_authors(agg_fold(cs))[i];
            &&& forall|x: int, y: int| 0 <= x < y < a.daily.len() ==> seq_lt(#[trigger] a.daily[x].date, #[trigger] a.daily[y].date)
            &&& forall|x: int, y: int| 0 <= x < y < a.activity.len()
                ==> seq_lt(#[trigger] a.activity[x].week_id, #[trigger] a.activity[y].week_id)
            &&& crate::seqs::sum_by(a.daily, |d: DayView| d.commits) == dated_by(cs, a.email)
            &&& crate::seqs::sum_by(a.activity, |w: WeekView| w.commits) == dated_by(cs, a.email)
            &&& forall|x: int| 0 <= x < a.activity.len() ==> {
                let tf = (#[trigger] a.activity[x]).top_files;
                &&& tf.len() <= 15
                &&& forall|u: int, v: int| 0 <= u < v < tf.len() ==> churn(#[trigger] tf[u]) >= churn(#[trigger] tf[v])
            }
        },
{
    let m = agg_fold(cs);
    let pre = m.authors.map_values(|a: AuthorView| author_final(a));
    let s = final_authors(m);
    let dkey = |d: DayView| d.date;
    let wkey = |w: WeekView| w.week_id;
    assert forall|a: DayView, b: DayView| #[trigger] DayActivity::goes_before(a, b) <==> seq_lt(dkey(a), dkey(b)) by {}
    assert forall|a: WeekView, b: WeekView| #[trigger] WeeklyActivity::goes_before(a, b) <==> seq_lt(wkey(a), wkey(b)) by {}
    assert forall|i: int| 0 <= i < s.len() implies {
        let a = #[trigger] s[i];
        &&& forall|x: int, y: int| 0 <= x < y < a.daily.len() ==> seq_lt(#[trigger] a.daily[x].date, #[trigger] a.daily[y].date)
        &&& forall|x: int, y: int| 0 <= x < y < a.activity.len()
            ==> seq_lt(#[trigger] a.activity[x].week_id, #[trigger] a.activity[y].week_id)
        &&& crate::seqs::sum_by(a.daily, |d: DayView| d.commits) == dated_by(cs, a.email)
        &&& crate::seqs::sum_by(a.activity, |w: WeekView| w.commits) == dated_by(cs, a.email)
        &&& forall|x: int| 0 <= x < a.activity.len() ==> {
            let tf = (#[trigger] a.activity[x]).top_files;
            &&& tf.len() <= 15
            &&& forall|u: int, v: int| 0 <= u < v < tf.len() ==> churn(#[trigger] tf[u]) >= churn(#[trigger] tf[v])
        }
    } by {
        assert(s.contains(s[i]));
        lemma_stable_sort_contains::<AuthorStats>(pre, s[i]);
        let k = choose|k: int| 0 <= k < pre.len() && pre[k] == s[i];
        let raw = m.authors[k];
        let e = raw.email;
        lemma_agg_activity(cs, e);
        lemma_indexes_agg(cs);
        assert(emails(m.authors)[k] == e);
        lemma_pos_of(emails(m.authors), e);
        let kk = pos_of(emails(m.authors), e);
        assert(emails(m.authors)[kk] == e);
        assert(kk == k);
        assert(activity_ok(raw, dated_by(cs, e)));
        let a = s[i];
        assert(a == author_final(raw));
        // days
        assert(raw.daily.map_values(dkey) =~= day_dates(raw.daily));
        crate::seqs::lemma_stable_sort_strict::<DayActivity>(raw.daily, dkey);
        crate::seqs::lemma_stable_sort_sum::<DayActivity>(raw.daily, |d: DayView| d.commits);
        // weeks
        let sw = stable_sort::<WeeklyActivity>(raw.activity);
        assert(raw.activity.map_values(wkey) =~= week_ids(raw.activity));
        crate::seqs::lemma_stable_sort_strict::<WeeklyActivity>(raw.activity, wkey);
        crate::seqs::lemma_stable_sort_sum::<WeeklyActivity>(raw.activity, |w: WeekView| w.commits);
        crate::seqs::lemma_sum_by_map(sw, |w: WeekView| week_final(w), |w: WeekView| w.commits, |w: WeekView| w.commits);
        assert(a.activity == sw.map_values(|w: WeekView| week_final(w)));
        assert forall|x: int, y: int| 0 <= x < y < a.activity.len()
            implies seq_lt(#[trigger] a.activity[x].week_id, #[trigger] a.activity[y].week_id) by {
            assert(a.activity[x].week_id == wkey(sw[x]) && a.activity[y].week_id == wkey(sw[y]));
        }
        assert forall|x: int| 0 <= x < a.activity.len() implies {
            let tf = (#[trigger] a.activity[x]).top_files;
            &&& tf.len() <= 15
            &&& forall|u: int, v: int| 0 <= u < v < tf.len() ==> churn(#[trigger] tf[u]) >= churn(#[trigger] tf[v])
        } by {
            let full = stable_sort::<FileChange>(sw[x].top_files);
            crate::seqs::lemma_stable_sort_ranked::<FileChange>(sw[x].top_files);
            let tf = a.activity[x].top_files;
            assert(tf == truncated(full, 15));
            assert forall|u: int, v: int| 0 <= u < v < tf.len() implies churn(#[trigger] tf[u]) >= churn(#[trigger] tf[v]) by {
                assert(tf[u] == full[u] && tf[v] == full[v]);
                assert(!FileChange::goes_before(full[v], full[u]));
            }
        }
    }
}

/// Whether no two of an author's weeks list a top file twice.
pub open spec fn top_paths_distinct(a: Seq<AuthorView>) -> bool {
    forall|i: int, j: int|
        0 <= i < a.len() && 0 <= j < a[i].activity.len() ==> change_paths((#[trigger] a[i].activity[j]).top_files).no_duplicates()
}

/// Merging one change keeps a week's top-file paths distinct.
proof fn lemma_top_step_distinct(tf: Seq<ChangeView>, ch: ChangeView)
    requires
        change_paths(tf).no_duplicates(),
    ensures
        change_paths(top_step(tf, ch)).no_duplicates(),
{
    let ps = change_paths(tf);
    let k = pos_of(ps, ch.path);
    lemma_pos_of(ps, ch.path);
    let t = top_merge(tf, ch);
    if k >= 0 {
        assert(ps[k] == tf[k].path);
        assert(change_paths(t) =~= ps.update(k, ps[k]));
        assert(ps.update(k, ps[k]) =~= ps);
    } else {
        assert(change_paths(t) =~= ps.push(ch.path));
        lemma_push_new(ps, ch.path);
    }
    if t.len() > 30 {
        assert(t.map_values(|c: ChangeView| c.path) =~= change_paths(t));
        crate::seqs::lemma_stable_sort_keys_distinct::<FileChange, Seq<char>>(t, |c: ChangeView| c.path);
        assert(truncated(stable_sort::<FileChange>(t), 15).map_values(|c: ChangeView| c.path)
            =~= change_paths(truncated(stable_sort::<FileChange>(t), 15)));
    }
}

proof fn lemma_top_fold_distinct(tf: Seq<ChangeView>, chs: Seq<ChangeView>)
    requires
        change_paths(tf).no_duplicates(),
    ensures
        change_paths(top_fold(tf, chs)).no_duplicates(),
    decreases chs.len(),
{
    if chs.len() > 0 {
        lemma_top_fold_distinct(tf, chs.drop_last());
        lemma_top_step_distinct(top_fold(tf, chs.drop_last()), chs.last());
    }
}

/// Counting a commit in keeps every week's top-file paths distinct.
proof fn lemma_add_keeps_top_paths(m: AggView, c: CommitView)
    requires
        top_paths_distinct(m.authors),
    ensures
        top_paths_distinct(add_model(m, c).authors),
{
    let a0 = m.authors;
    let kc = pos_of(emails(a0), c.author_email);
    lemma_pos_of(emails(a0), c.author_email);
    let ent = author_entry(a0, c);
    let na = author_after(ent, c);
    assert forall|j: int| 0 <= j < ent.activity.len() implies change_paths((#[trigger] ent.activity[j]).top_files).no_duplicates() by {
        if kc >= 0 {
            assert(ent == a0[kc]);
        }
    }
    assert forall|j: int| 0 <= j < na.activity.len() implies change_paths((#[trigger] na.activity[j]).top_files).no_duplicates() by {
        match commit_moment(c.date) {
            Some(mo) => {
                let ws = ent.activity;
                let id = week_key(mo.1);
                let k = pos_of(week_ids(ws), id);
                lemma_pos_of(week_ids(ws), id);
                let w = week_entry(ws, id);
                if k >= 0 {
                    assert(w == ws[k]);
                } else {
                    assert(change_paths(w.top_files) =~= Seq::<Seq<char>>::empty());
                }
                lemma_top_fold_distinct(w.top_files, c.changes);
                if k >= 0 && j != k {
                    assert(na.activity[j] == ws[j]);
                } else if k < 0 && j < ws.len() {
                    assert(na.activity[j] == ws[j]);
                }
            },
            None => {
                assert(na.activity == ent.activity);
            },
        }
    }
    let a1 = add_model(m, c).authors;
    assert forall|i: int, j: int| 0 <= i < a1.len() && 0 <= j < a1[i].activity.len()
        implies change_paths((#[trigger] a1[i].activity[j]).top_files).no_duplicates() by {
        if (kc >= 0 && i == kc) || (kc < 0 && i == a0.len()) {
            assert(a1[i] == na);
        } else {
            assert(a1[i] == a0[i]);
        }
    }
}

proof fn lemma_agg_top_paths(cs: Seq<CommitView>)
    ensures
        top_paths_distinct(agg_fold(cs).authors),
    decreases cs.len(),
{
    if cs.len() > 0 {
        lemma_agg_top_paths(cs.drop_last());
        lemma_add_keeps_top_paths(agg_fold(cs.drop_last()), cs.last());
    }
}

/// No reported week lists a top file twice.
pub proof fn law_week_top_files_distinct(cs: Seq<CommitView>)
    ensures
        forall|i: int, x: int| 0 <= i < final_authors(agg_fold(cs)).len() && 0 <= x < final_authors(agg_fold(cs))[i].activity.len()
            ==> change_paths((#[trigger] final_authors(agg_fold(cs))[i].activity[x]).top_files).no_duplicates(),
{
    let m = agg_fold(cs);
    let pre = m.authors.map_values(|a: AuthorView| author_final(a));
    let s = final_authors(m);
    lemma_agg_top_paths(cs);
    assert forall|i: int, x: int| 0 <= i < s.len() && 0 <= x < s[i].activity.len()
        implies change_paths((#[trigger] s[i].activity[x]).top_files).no_duplicates() by {
        assert(s.contains(s[i]));
        lemma_stable_sort_contains::<AuthorStats>(pre, s[i]);
        let k = choose|k: int| 0 <= k < pre.len() && pre[k] == s[i];
        let raw = m.authors[k];
        let sw = stable_sort::<WeeklyActivity>(raw.activity);
        crate::seqs::lemma_stable_sort_permutes::<WeeklyActivity>(raw.activity);
        assert(sw.contains(sw[x]));
        lemma_stable_sort_contains::<WeeklyActivity>(raw.activity, sw[x]);
        let y = choose|y: int| 0 <= y < raw.activity.len() && raw.activity[y] == sw[x];
        let tf = raw.activity[y].top_files;
        assert(change_paths(tf).no_duplicates());
        assert(tf.map_values(|c: ChangeView| c.path) =~= change_paths(tf));
        crate::seqs::lemma_stable_sort_keys_distinct::<FileChange, Seq<char>>(tf, |c: ChangeView| c.path);
        assert(s[i].activity[x] == week_final(sw[x]));
        assert(truncated(stable_sort::<FileChange>(tf), 15).map_values(|c: ChangeView| c.path)
            =~= change_paths(s[i].activity[x].top_files));
    }
}

// ---------------------------------------------------------------- which headers give commits

/// Whether `raw` is a header line: trimmed, it is non-empty and starts with `commit|`.
pub open spec fn is_header_line(raw: Seq<char>) -> bool {
    trim(raw).len() > 0 && has_prefix(trim(raw), commit_prefix())
}

/// The `|`-separated fields of a header line (at most six, the last holding the rest).
pub open spec fn header_parts(raw: Seq<char>) -> Seq<Seq<char>> {
    splitn(trim(raw), 6, '|')
}

/// Whether `raw` is a header line that opens a commit: six fields, none excluded.
pub open spec fn opens_commit(rules: Seq<(FilterType, Seq<char>)>, raw: Seq<char>) -> bool {
    is_header_line(raw) && header_parts(raw).len() == 6 && !header_excluded(rules, header_parts(raw))
}

/// Whether `raw` is a numstat line of a counted file that no rule excludes.
pub open spec fn accepted_change(exts: Seq<Seq<char>>, rules: Seq<(FilterType, Seq<char>)>, raw: Seq<char>) -> bool {
    let line = trim(raw);
    &&& line.len() > 0 && !has_prefix(line, commit_prefix())
    &&& split_ws(line).len() >= 3
    &&& extension_ok(exts, split_ws(line)[2])
    &&& !path_excluded_by(rules, split_ws(line)[2])
}

/// Whether commit `c` carries the header fields `parts`.
pub open spec fn from_header(c: CommitView, parts: Seq<Seq<char>>) -> bool {
    c.hash == parts[1] && c.author_name == parts[2] && c.author_email == parts[3] && c.date == parts[4]
        && c.subject == parts[5]
}

/// Whether some line of `ls` strictly between positions `i` and `j` is an accepted change.
pub open spec fn accepted_between(exts: Seq<Seq<char>>, rules: Seq<(FilterType, Seq<char>)>, ls: Seq<Seq<char>>, i: int, j: int) -> bool {
    exists|k: int| i < k < j && #[trigger] accepted_change(exts, rules, ls[k])
}

/// The position of the header that opened the commit under way after `ls`, or -1.
pub open spec fn open_index(rules: Seq<(FilterType, Seq<char>)>, ls: Seq<Seq<char>>) -> int
    decreases ls.len(),
{
    if ls.len() == 0 {
        -1
    } else if is_header_line(ls.last()) {
        if opens_commit(rules, ls.last()) {
            ls.len() - 1
        } else {
            -1
        }
    } else {
        open_index(rules, ls.drop_last())
    }
}

/// The positions of the headers of the commits completed line by line over `ls`, in order.
pub open spec fn done_index(exts: Seq<Seq<char>>, rules: Seq<(FilterType, Seq<char>)>, ls: Seq<Seq<char>>) -> Seq<int>
    decreases ls.len(),
{
    if ls.len() == 0 {
        Seq::empty()
    } else {
        let before = done_index(exts, rules, ls.drop_last());
        let st = parse_prefix(exts, rules, ls.drop_last()).0;
        if is_header_line(ls.last()) && st.1 && st.0 is Some {
            before.push(open_index(rules, ls.drop_last()))
        } else {
            before
        }
    }
}

/// Whether the commit opened at line `i` is completed at the header line `j`: no header line
/// lies between them, and an accepted change does.
pub open spec fn completed_at(exts: Seq<Seq<char>>, rules: Seq<(FilterType, Seq<char>)>, ls: Seq<Seq<char>>, i: int, j: int) -> bool {
    &&& 0 <= i < j < ls.len()
    &&& is_header_line(ls[j])
    &&& forall|m: int| i < m < j ==> !is_header_line(#[trigger] ls[m])
    &&& accepted_between(exts, rules, ls, i, j)
}

/// Dropping a line after `j` changes nothing of what happened up to `j`.
proof fn lemma_completed_at_prefix(exts: Seq<Seq<char>>, rules: Seq<(FilterType, Seq<char>)>, ls: Seq<Seq<char>>, i: int, j: int)
    requires
        j < ls.len() - 1,
    ensures
        completed_at(exts, rules, ls, i, j) == completed_at(exts, rules, ls.drop_last(), i, j),
{
    let p = ls.drop_last();
    if 0 <= i < j {
        assert(p[j] == ls[j]);
        assert((forall|m: int| i < m < j ==> !is_header_line(#[trigger] ls[m])) == (forall|m: int| i < m < j ==> !is_header_line(#[trigger] p[m]))) by {
            assert forall|m: int| i < m < j implies ls[m] == p[m] by {}
        }
        if accepted_between(exts, rules, ls, i, j) {
            let k = choose|k: int| i < k < j && #[trigger] accepted_change(exts, rules, ls[k]);
            assert(accepted_change(exts, rules, p[k]));
        }
        if accepted_between(exts, rules, p, i, j) {
            let k = choose|k: int| i < k < j && #[trigger] accepted_change(exts, rules, p[k]);
            assert(accepted_change(exts, rules, ls[k]));
        }
    }
}

/// A commit-opening header with no header line after it is the one under way.
proof fn lemma_open_index_is(rules: Seq<(FilterType, Seq<char>)>, ls: Seq<Seq<char>>, i: int)
    requires
        0 <= i < ls.len(),
        opens_commit(rules, ls[i]),
        forall|m: int| i < m < ls.len() ==> !is_header_line(#[trigger] ls[m]),
    ensures
        open_index(rules, ls) == i,
    decreases ls.len(),
{
    if i < ls.len() - 1 {
        let p = ls.drop_last();
        assert(!is_header_line(ls[ls.len() - 1]));
        assert forall|m: int| i < m < p.len() implies !is_header_line(#[trigger] p[m]) by {
            assert(p[m] == ls[m]);
        }
        assert(p[i] == ls[i]);
        lemma_open_index_is(rules, p, i);
    }
}

/// What the parser's state and its completed commits say about the lines behind them.
pub open spec fn headers_ok(exts: Seq<Seq<char>>, rules: Seq<(FilterType, Seq<char>)>, ls: Seq<Seq<char>>) -> bool {
    let st = parse_prefix(exts, rules, ls).0;
    let cs = parse_prefix(exts, rules, ls).1;
    let oi = open_index(rules, ls);
    let d = done_index(exts, rules, ls);
    &&& -1 <= oi < ls.len()
    &&& (st.0 is Some <==> oi >= 0)
    &&& oi >= 0 ==> opens_commit(rules, ls[oi]) && from_header(st.0->0, header_parts(ls[oi]))
        && (st.1 <==> accepted_between(exts, rules, ls, oi, ls.len() as int))
        && forall|k: int| oi < k < ls.len() ==> !is_header_line(#[trigger] ls[k])
    &&& d.len() == cs.len()
    &&& forall|k: int| 0 <= k < d.len() ==> {
        &&& 0 <= #[trigger] d[k] < ls.len()
        &&& opens_commit(rules, ls[d[k]])
        &&& from_header(cs[k], header_parts(ls[d[k]]))
        &&& (oi >= 0 ==> d[k] < oi)
        &&& exists|j: int| #[trigger] completed_at(exts, rules, ls, d[k], j)
    }
    &&& forall|k: int, l: int| 0 <= k < l < d.len() ==> #[trigger] d[k] < #[trigger] d[l]
    &&& forall|i: int, j: int| opens_commit(rules, ls[i]) && #[trigger] completed_at(exts, rules, ls, i, j) ==> d.contains(i)
}

proof fn lemma_headers_ok(exts: Seq<Seq<char>>, rules: Seq<(FilterType, Seq<char>)>, ls: Seq<Seq<char>>)
    ensures
        headers_ok(exts, rules, ls),
    decreases ls.len(),
{
    if ls.len() > 0 {
        let prev = ls.drop_last();
        let raw = ls.last();
        let n = ls.len() - 1;
        lemma_headers_ok(exts, rules, prev);
        assert(ls.drop_last() == prev);
        assert forall|k: int| 0 <= k < prev.len() implies prev[k] == ls[k] by {}
        let st = parse_prefix(exts, rules, prev).0;
        let oi0 = open_index(rules, prev);
        let step = parse_step(exts, rules, st, raw);
        crate::strutil::lemma_trim_idempotent(raw);
        let d0 = done_index(exts, rules, prev);
        let d = done_index(exts, rules, ls);
        assert forall|i: int, j: int| j < n implies #[trigger] completed_at(exts, rules, ls, i, j) == completed_at(exts, rules, prev, i, j) by {
            lemma_completed_at_prefix(exts, rules, ls, i, j);
        }
        assert forall|k: int| 0 <= k < d0.len() implies exists|j: int| #[trigger] completed_at(exts, rules, ls, #[trigger] d0[k], j) by {
            let j = choose|j: int| #[trigger] completed_at(exts, rules, prev, d0[k], j);
            assert(completed_at(exts, rules, ls, d0[k], j));
        }
        if is_header_line(raw) && st.1 && st.0 is Some {
            assert(d == d0.push(oi0));
            assert(completed_at(exts, rules, ls, oi0, n)) by {
                assert forall|m: int| oi0 < m < n implies !is_header_line(#[trigger] ls[m]) by {
                    assert(ls[m] == prev[m]);
                }
                let k = choose|k: int| oi0 < k < prev.len() && #[trigger] accepted_change(exts, rules, prev[k]);
                assert(accepted_change(exts, rules, ls[k]));
            }
        } else {
            assert(d == d0);
        }
        assert forall|i: int, j: int| opens_commit(rules, ls[i]) && #[trigger] completed_at(exts, rules, ls, i, j) implies d.contains(i) by {
            if j < n {
                assert(completed_at(exts, rules, prev, i, j));
                assert(prev[i] == ls[i]);
                let k = choose|k: int| 0 <= k < d0.len() && d0[k] == i;
                assert(d[k] == i);
            } else {
                assert(j == n);
                assert(prev[i] == ls[i]);
                assert forall|m: int| i < m < prev.len() implies !is_header_line(#[trigger] prev[m]) by {
                    assert(prev[m] == ls[m]);
                }
                lemma_open_index_is(rules, prev, i);
                let k = choose|k: int| i < k < j && #[trigger] accepted_change(exts, rules, ls[k]);
                assert(accepted_change(exts, rules, prev[k]));
                assert(accepted_between(exts, rules, prev, i, prev.len() as int));
                assert(d[d.len() - 1] == i);
            }
        }
        if is_header_line(raw) {
            if opens_commit(rules, raw) {
                let parts = header_parts(raw);
                assert(step.0.0 == Some(header_commit(parts)));
            }
        } else if trim(raw).len() > 0 {
            if oi0 >= 0 {
                if accepted_change(exts, rules, raw) {
                    assert(accepted_between(exts, rules, ls, oi0, ls.len() as int)) by {
                        assert(accepted_change(exts, rules, ls[n]));
                    }
                } else {
                    if accepted_between(exts, rules, ls, oi0, ls.len() as int) {
                        let k = choose|k: int| oi0 < k < ls.len() && #[trigger] accepted_change(exts, rules, ls[k]);
                        assert(k < n);
                        assert(accepted_between(exts, rules, prev, oi0, prev.len() as int)) by {
                            assert(accepted_change(exts, rules, prev[k]));
                        }
                    }
                    if accepted_between(exts, rules, prev, oi0, prev.len() as int) {
                        let k = choose|k: int| oi0 < k < prev.len() && #[trigger] accepted_change(exts, rules, prev[k]);
                        assert(accepted_change(exts, rules, ls[k]));
                    }
                }
            }
        } else {
            if oi0 >= 0 {
                assert(!accepted_change(exts, rules, raw));
                if accepted_between(exts, rules, ls, oi0, ls.len() as int) {
                    let k = choose|k: int| oi0 < k < ls.len() && #[trigger] accepted_change(exts, rules, ls[k]);
                    assert(k < n);
                    assert(accepted_between(exts, rules, prev, oi0, prev.len() as int)) by {
                        assert(accepted_change(exts, rules, prev[k]));
                    }
                }
                if accepted_between(exts, rules, prev, oi0, prev.len() as int) {
                    let k = choose|k: int| oi0 < k < prev.len() && #[trigger] accepted_change(exts, rules, prev[k]);
                    assert(accepted_change(exts, rules, ls[k]));
                }
            }
        }
    }
}

/// Which headers give commits. Fed the lines `ls`, a parser completes, in the order of their
/// headers, exactly the commits opened by a header of six fields that no rule excludes and
/// followed, before the next header line, by an accepted change; each carries its header's
/// revision, author, e-mail, date and subject. At the end of input it completes the commit
/// opened by the last such header when an accepted change follows that header.
pub proof fn law_parse_commits_headers(exts: Seq<Seq<char>>, rules: Seq<(FilterType, Seq<char>)>, ls: Seq<Seq<char>>)
    ensures
        done_index(exts, rules, ls).len() == parse_prefix(exts, rules, ls).1.len(),
        forall|k: int| 0 <= k < done_index(exts, rules, ls).len() ==> {
            let i = #[trigger] done_index(exts, rules, ls)[k];
            &&& opens_commit(rules, ls[i])
            &&& from_header(parse_prefix(exts, rules, ls).1[k], header_parts(ls[i]))
            &&& exists|j: int| #[trigger] completed_at(exts, rules, ls, i, j)
        },
        forall|k: int, l: int| 0 <= k < l < done_index(exts, rules, ls).len()
            ==> #[trigger] done_index(exts, rules, ls)[k] < #[trigger] done_index(exts, rules, ls)[l],
        forall|i: int, j: int| opens_commit(rules, ls[i]) && #[trigger] completed_at(exts, rules, ls, i, j)
            ==> done_index(exts, rules, ls).contains(i),
        ({
            let oi = open_index(rules, ls);
            match finish_step(parse_prefix(exts, rules, ls).0).1 {
                Some(c) => oi >= 0 && opens_commit(rules, ls[oi]) && from_header(c, header_parts(ls[oi]))
                    && accepted_between(exts, rules, ls, oi, ls.len() as int)
                    && forall|m: int| oi < m < ls.len() ==> !is_header_line(#[trigger] ls[m]),
                None => oi >= 0 ==> !accepted_between(exts, rules, ls, oi, ls.len() as int),
            }
        }),
{
    lemma_headers_ok(exts, rules, ls);
}

/// Whether no rule excludes commit `c` by its revision, author, e-mail or subject (rules of
/// the matching type, or general ones).
pub open spec fn passes_rules(rules: Seq<(FilterType, Seq<char>)>, c: CommitView) -> bool {
    &&& !excluded_by(rules, c.hash, FilterType::Revision)
    &&& !excluded_by(rules, c.author_name, FilterType::Author)
    &&& !excluded_by(rules, c.author_email, FilterType::Email)
    &&& !excluded_by(rules, c.subject, FilterType::Message)
}

/// No commit that a parser completes, line by line or at the end of input, is excluded by a
/// rule: its revision, author, e-mail and subject each match no rule of that type and no
/// general rule.
pub proof fn law_parsed_commits_not_excluded(exts: Seq<Seq<char>>, rules: Seq<(FilterType, Seq<char>)>, ls: Seq<Seq<char>>, raw: Seq<char>)
    ensures
        forall|k: int| 0 <= k < parse_prefix(exts, rules, ls).1.len() ==> passes_rules(rules, #[trigger] parse_prefix(exts, rules, ls).1[k]),
        parse_step(exts, rules, parse_prefix(exts, rules, ls).0, raw).1 matches Some(c) ==> passes_rules(rules, c),
        finish_step(parse_prefix(exts, rules, ls).0).1 matches Some(c) ==> passes_rules(rules, c),
{
    lemma_headers_ok(exts, rules, ls);
    let cs = parse_prefix(exts, rules, ls).1;
    let d = done_index(exts, rules, ls);
    assert forall|k: int| 0 <= k < cs.len() implies passes_rules(rules, #[trigger] cs[k]) by {
        let i = d[k];
        assert(opens_commit(rules, ls[i]));
        assert(from_header(cs[k], header_parts(ls[i])));
    }
    let more = ls.push(raw);
    lemma_headers_ok(exts, rules, more);
    assert(more.drop_last() =~= ls);
    let cs2 = parse_prefix(exts, rules, more).1;
    let d2 = done_index(exts, rules, more);
    match parse_step(exts, rules, parse_prefix(exts, rules, ls).0, raw).1 {
        Some(c) => {
            assert(cs2 == cs.push(c));
            let k = cs2.len() - 1;
            let i = d2[k];
            assert(opens_commit(rules, more[i]));
            assert(from_header(cs2[k], header_parts(more[i])));
        },
        None => {},
    }
}

// ---------------------------------------------------------------- what each week counts

/// Whether commit `c` was made with e-mail `e` on a representable date in the week with id
/// `id` (the ISO week's year and number, as `week_key` writes them).
pub open spec fn in_week(c: CommitView, e: Seq<char>, id: Seq<char>) -> bool {
    c.author_email == e && match commit_moment(c.date) {
        Some(mo) => week_key(mo.1) == id,
        None => false,
    }
}

/// How many of the commits `cs` are in week `id` of e-mail `e`.
pub open spec fn week_commits_by(cs: Seq<CommitView>, e: Seq<char>, id: Seq<char>) -> nat
    decreases cs.len(),
{
    if cs.len() == 0 {
        0
    } else {
        week_commits_by(cs.drop_last(), e, id) + if in_week(cs.last(), e, id) { 1nat } else { 0nat }
    }
}

/// The insertions of the commits of `cs` in week `id` of e-mail `e`.
pub open spec fn week_insertions_by(cs: Seq<CommitView>, e: Seq<char>, id: Seq<char>) -> nat
    decreases cs.len(),
{
    if cs.len() == 0 {
        0
    } else {
        week_insertions_by(cs.drop_last(), e, id) + if in_week(cs.last(), e, id) { cs.last().insertions } else { 0nat }
    }
}

/// The deletions of the commits of `cs` in week `id` of e-mail `e`.
pub open spec fn week_deletions_by(cs: Seq<CommitView>, e: Seq<char>, id: Seq<char>) -> nat
    decreases cs.len(),
{
    if cs.len() == 0 {
        0
    } else {
        week_deletions_by(cs.drop_last(), e, id) + if in_week(cs.last(), e, id) { cs.last().deletions } else { 0nat }
    }
}

/// Counting a commit into week `id0` changes that week's entry only.
proof fn lemma_week_entry_bump(ws: Seq<WeekView>, id0: Seq<char>, c: CommitView, id: Seq<char>)
    ensures
        week_entry(bump_week(ws, id0, c), id) == if id == id0 {
            week_after(week_entry(ws, id0), c)
        } else {
            week_entry(ws, id)
        },
{
    let ids = week_ids(ws);
    let k = pos_of(ids, id0);
    let w = week_after(week_entry(ws, id0), c);
    let next = bump_week(ws, id0, c);
    lemma_pos_of(ids, id0);
    lemma_pos_of(ids, id);
    if k >= 0 {
        assert(ids[k] == ws[k].week_id);
        assert(week_ids(next) =~= ids.update(k, ids[k]));
        assert(ids.update(k, ids[k]) =~= ids);
        if id != id0 {
            let kq = pos_of(ids, id);
            if kq >= 0 {
                assert(ids[kq] == ws[kq].week_id);
                assert(kq != k);
            }
        }
    } else {
        assert(week_ids(next) =~= ids.push(id0));
        lemma_pos_of_push(ids, id0, id);
        let kq = pos_of(ids, id);
        if kq >= 0 {
            assert(ids[kq] == ws[kq].week_id);
            assert(next[kq] == ws[kq]);
        }
    }
}

/// Each aggregated author's entry for week `id` holds the commits, insertions and deletions
/// of exactly that author's commits in that week.
proof fn lemma_agg_weeks(cs: Seq<CommitView>, e: Seq<char>, id: Seq<char>)
    ensures
        ({
            let a = agg_fold(cs).authors;
            let k = pos_of(emails(a), e);
            &&& k >= 0 ==> week_entry(a[k].activity, id).commits == week_commits_by(cs, e, id)
                && week_entry(a[k].activity, id).insertions == week_insertions_by(cs, e, id)
                && week_entry(a[k].activity, id).deletions == week_deletions_by(cs, e, id)
            &&& k < 0 ==> week_commits_by(cs, e, id) == 0 && week_insertions_by(cs, e, id) == 0
                && week_deletions_by(cs, e, id) == 0
        }),
    decreases cs.len(),
{
    let a = agg_fold(cs).authors;
    lemma_pos_of(emails(a), e);
    if cs.len() > 0 {
        let prev = cs.drop_last();
        let c = cs.last();
        lemma_agg_weeks(prev, e, id);
        let a0 = agg_fold(prev).authors;
        let ps = emails(a0);
        let kc = pos_of(ps, c.author_email);
        let ent = author_entry(a0, c);
        let na = author_after(ent, c);
        lemma_pos_of(ps, c.author_email);
        lemma_pos_of(ps, e);
        let k0 = pos_of(ps, e);
        let k = pos_of(emails(a), e);
        if kc < 0 {
            assert(week_ids(ent.activity) =~= Seq::<Seq<char>>::empty());
            lemma_pos_of(week_ids(ent.activity), id);
        } else {
            assert(ps[kc] == a0[kc].email);
            assert(ent == a0[kc]);
        }
        if e == c.author_email {
            match commit_moment(c.date) {
                Some(mo) => {
                    lemma_week_entry_bump(ent.activity, week_key(mo.1), c, id);
                },
                None => {},
            }
            if kc >= 0 {
                assert(a == a0.update(kc, na));
                assert(emails(a) =~= ps.update(kc, ps[kc]));
                crate::seqs::lemma_pos_of_update_same(ps, kc, e);
            } else {
                assert(a == a0.push(na));
                assert(emails(a) =~= ps.push(c.author_email));
                lemma_pos_of_push(ps, c.author_email, e);
            }
            assert(a[k] == na);
        } else {
            assert(!in_week(c, e, id));
            if kc >= 0 {
                assert(a == a0.update(kc, na));
                assert(emails(a) =~= ps.update(kc, ps[kc]));
                crate::seqs::lemma_pos_of_update_same(ps, kc, e);
                if k0 >= 0 {
                    assert(ps[k0] == a0[k0].email);
                    assert(a[k] == a0[k0]);
                }
            } else {
                assert(a == a0.push(na));
                assert(emails(a) =~= ps.push(c.author_email));
                lemma_pos_of_push(ps, c.author_email, e);
                if k0 >= 0 {
                    assert(ps[k0] == a0[k0].email);
                    assert(a[k] == a0[k0]);
                }
            }
        }
    }
}

/// Every week an author reports holds the number, the insertions and the deletions of
/// exactly that author's commits whose representable date falls in that week.
pub proof fn law_week_totals(cs: Seq<CommitView>)
    ensures
        forall|i: int, x: int| 0 <= i < final_authors(agg_fold(cs)).len() && 0 <= x < final_authors(agg_fold(cs))[i].activity.len()
            ==> {
                let a = final_authors(agg_fold(cs))[i];
                let w = #[trigger] final_authors(agg_fold(cs))[i].activity[x];
                &&& w.commits == week_commits_by(cs, a.email, w.week_id)
                &&& w.insertions == week_insertions_by(cs, a.email, w.week_id)
                &&& w.deletions == week_deletions_by(cs, a.email, w.week_id)
            },
{
    let m = agg_fold(cs);
    let pre = m.authors.map_values(|a: AuthorView| author_final(a));
    let s = final_authors(m);
    assert forall|i: int, x: int| 0 <= i < s.len() && 0 <= x < s[i].activity.len() implies {
        let a = s[i];
        let w = #[trigger] s[i].activity[x];
        &&& w.commits == week_commits_by(cs, a.email, w.week_id)
        &&& w.insertions == week_insertions_by(cs, a.email, w.week_id)
        &&& w.deletions == week_deletions_by(cs, a.email, w.week_id)
    } by {
        assert(s.contains(s[i]));
        lemma_stable_sort_contains::<AuthorStats>(pre, s[i]);
        let k = choose|k: int| 0 <= k < pre.len() && pre[k] == s[i];
        let raw = m.authors[k];
        let e = raw.email;
        lemma_agg_activity(cs, e);
        lemma_indexes_agg(cs);
        assert(emails(m.authors)[k] == e);
        lemma_pos_of(emails(m.authors), e);
        let kk = pos_of(emails(m.authors), e);
        assert(emails(m.authors)[kk] == e);
        assert(kk == k);
        assert(activity_ok(raw, dated_by(cs, e)));
        let sw = stable_sort::<WeeklyActivity>(raw.activity);
        crate::seqs::lemma_stable_sort_permutes::<WeeklyActivity>(raw.activity);
        assert(s[i].activity[x] == week_final(sw[x]));
        assert(sw.contains(sw[x]));
        lemma_stable_sort_contains::<WeeklyActivity>(raw.activity, sw[x]);
        let y = choose|y: int| 0 <= y < raw.activity.len() && raw.activity[y] == sw[x];
        let id = sw[x].week_id;
        let ids = week_ids(raw.activity);
        assert(ids[y] == id);
        lemma_pos_of(ids, id);
        let py = pos_of(ids, id);
        assert(ids[py] == id);
        assert(py == y);
        assert(week_entry(raw.activity, id) == raw.activity[y]);
        lemma_agg_weeks(cs, e, id);
    }
}

} // verus!
