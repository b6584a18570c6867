//! Line ownership from `git blame --line-porcelain`, per author and per file.
use vstd::prelude::*;
use crate::config::Config;
use crate::filtering::{excluded_by, path_excluded_by, Filter, FilterType};
use crate::seqs::{lemma_pos_of, lemma_pos_of_is, lemma_pos_of_push, lemma_pos_of_update_same, lemma_push_new, lemma_stable_sort_contains, lemma_stable_sort_no_duplicates, pos_of, stable_sort, stable_sort_vec, views, Sortable};
use crate::strutil::{
    chars_of, copy_range, has_prefix, lines, split_lines, starts_with, string_of, strip_angles,
    strip_angles_chars,
};
use crate::analysis::{extension_counts, extension_ok};

verus! {

/// Detailed blame statistics per file for an author.
#[derive(Debug, Default, Clone)]
pub struct FileBlame {
    pub path: String,
    pub lines: u32,
}

/// The content of a `FileBlame`.
pub struct FileBlameView {
    pub path: Seq<char>,
    pub lines: nat,
}

impl View for FileBlame {
    type V = FileBlameView;

    open spec fn view(&self) -> FileBlameView {
        FileBlameView { path: self.path@, lines: self.lines as nat }
    }
}

impl FileBlame {
    /// The file's name without its directories (its whole path when it has none).
    pub fn filename(&self) -> (r: String)
        ensures
            r@ == crate::paths::display_name(self.path@),
    {
        crate::paths::display_name_of(&self.path)
    }
}

/// Aggregated blame statistics per author.
#[derive(Debug, Default, Clone)]
pub struct BlameStats {
    pub author_name: String,
    pub author_email: String,
    pub lines: u32,
    pub top_files: Vec<FileBlame>,
}

/// The content of a `BlameStats`.
pub struct BlameView {
    pub author_name: Seq<char>,
    pub author_email: Seq<char>,
    pub lines: nat,
    pub top_files: Seq<FileBlameView>,
}

impl View for BlameStats {
    type V = BlameView;

    open spec fn view(&self) -> BlameView {
        BlameView {
            author_name: self.author_name@,
            author_email: self.author_email@,
            lines: self.lines as nat,
            top_files: views(self.top_files@),
        }
    }
}

impl Sortable for FileBlame {
    /// Files with more lines come first.
    open spec fn goes_before(a: FileBlameView, b: FileBlameView) -> bool {
        a.lines > b.lines
    }

    proof fn goes_before_strict(a: FileBlameView, b: FileBlameView, c: FileBlameView) {
    }

    fn goes_before_exec(&self, other: &Self) -> (r: bool) {
        self.lines > other.lines
    }
}

impl Sortable for BlameStats {
    /// Authors with more lines come first.
    open spec fn goes_before(a: BlameView, b: BlameView) -> bool {
        a.lines > b.lines
    }

    proof fn goes_before_strict(a: BlameView, b: BlameView, c: BlameView) {
    }

    fn goes_before_exec(&self, other: &Self) -> (r: bool) {
        self.lines > other.lines
    }
}

pub open spec fn blame_emails(s: Seq<BlameView>) -> Seq<Seq<char>> {
    s.map_values(|b: BlameView| b.author_email)
}

/// `author `, the prefix of an author line.
pub open spec fn author_line_prefix() -> Seq<char> {
    seq!['a', 'u', 't', 'h', 'o', 'r', ' ']
}

/// `author-mail `, the prefix of an author e-mail line.
pub open spec fn mail_line_prefix() -> Seq<char> {
    seq!['a', 'u', 't', 'h', 'o', 'r', '-', 'm', 'a', 'i', 'l', ' ']
}

/// The state of the blame reader: the current author's name and e-mail, and the line counts
/// per e-mail so far (in the order first seen).
pub type BlameState = (Seq<char>, Seq<char>, Seq<BlameView>);

/// One line of `git blame --line-porcelain` output read: `author ` and `author-mail ` lines
/// set the current author (the e-mail without its angle brackets); a content line (one that
/// starts with a tab) counts for the current author, unless that author is excluded or has
/// no e-mail. The first name seen for an e-mail is kept.
pub open spec fn blame_step(rules: Seq<(FilterType, Seq<char>)>, st: BlameState, line: Seq<char>) -> BlameState {
    if has_prefix(line, author_line_prefix()) {
        (line.skip(7), st.1, st.2)
    } else if has_prefix(line, mail_line_prefix()) {
        (st.0, strip_angles(line.skip(12)), st.2)
    } else if line.len() > 0 && line[0] == '\t' {
        if excluded_by(rules, st.0, FilterType::Author) || excluded_by(rules, st.1, FilterType::Email) || st.1.len() == 0 {
            st
        } else {
            let k = pos_of(blame_emails(st.2), st.1);
            if k >= 0 {
                (st.0, st.1, st.2.update(k, BlameView { lines: st.2[k].lines + 1, ..st.2[k] }))
            } else {
                (st.0, st.1, st.2.push(BlameView { author_name: st.0, author_email: st.1, lines: 1, top_files: Seq::empty() }))
            }
        }
    } else {
        st
    }
}

/// Whether `blame_step` stays within `u32`.
pub open spec fn blame_step_ok(rules: Seq<(FilterType, Seq<char>)>, st: BlameState, line: Seq<char>) -> bool {
    let k = pos_of(blame_emails(st.2), st.1);
    !has_prefix(line, author_line_prefix()) && !has_prefix(line, mail_line_prefix()) && line.len() > 0 && line[0] == '\t'
        && !(excluded_by(rules, st.0, FilterType::Author) || excluded_by(rules, st.1, FilterType::Email) || st.1.len() == 0)
        && k >= 0 ==> st.2[k].lines + 1 <= u32::MAX
}

/// The blame state after reading `ls` in order.
pub open spec fn blame_fold(rules: Seq<(FilterType, Seq<char>)>, ls: Seq<Seq<char>>) -> BlameState
    decreases ls.len(),
{
    if ls.len() == 0 {
        (Seq::empty(), Seq::empty(), Seq::empty())
    } else {
        blame_step(rules, blame_fold(rules, ls.drop_last()), ls.last())
    }
}

/// Whether every step of `blame_fold` stays within `u32`.
pub open spec fn blame_fits(rules: Seq<(FilterType, Seq<char>)>, ls: Seq<Seq<char>>) -> bool
    decreases ls.len(),
{
    ls.len() == 0 || (blame_fits(rules, ls.drop_last()) && blame_step_ok(rules, blame_fold(rules, ls.drop_last()), ls.last()))
}

/// The per-author line counts of one file's blame output, in the order first seen.
pub open spec fn blame_counts(rules: Seq<(FilterType, Seq<char>)>, output: Seq<char>) -> Seq<BlameView> {
    blame_fold(rules, lines(output)).2
}

proof fn lemma_blame_fits_prefix(rules: Seq<(FilterType, Seq<char>)>, ls: Seq<Seq<char>>, k: int)
    requires
        0 <= k <= ls.len(),
        blame_fits(rules, ls),
    ensures
        blame_fits(rules, ls.take(k)),
    decreases ls.len() - k,
{
    if k < ls.len() {
        lemma_blame_fits_prefix(rules, ls, k + 1);
        assert(ls.take(k + 1).drop_last() =~= ls.take(k));
    } else {
        assert(ls.take(k) =~= ls);
    }
}

/// The position of e-mail `e` in `stats`, or `stats.len()` when absent.
fn find_email(stats: &Vec<BlameStats>, e: &String) -> (r: usize)
    ensures
        r <= stats@.len(),
        r < stats@.len() ==> pos_of(blame_emails(views(stats@)), e@) == r as int,
        r == stats@.len() ==> pos_of(blame_emails(views(stats@)), e@) == -1,
{
    let ghost names = blame_emails(views(stats@));
    let mut i: usize = 0;
    while i < stats.len()
        invariant
            i <= stats@.len(),
            names == blame_emails(views(stats@)),
            forall|j: int| 0 <= j < i ==> stats@[j].author_email@ != e@,
        decreases stats@.len() - i,
    {
        if stats[i].author_email == *e {
            proof {
                assert forall|j: int| 0 <= j < names.len() && j < i implies names[j] != e@ by {
                    assert(names[j] == stats@[j].author_email@);
                }
                lemma_pos_of_is(names, e@, i as int);
            }
            return i;
        }
        i = i + 1;
    }
    proof {
        assert forall|j: int| 0 <= j < names.len() implies names[j] != e@ by {
            assert(names[j] == stats@[j].author_email@);
        }
        lemma_pos_of_is(names, e@, -1);
    }
    i
}

/// Reads one line (`blame_step`); `false`, with nothing changed, when a count would overflow.
fn blame_step_exec(
    filter: &Filter,
    name: &mut String,
    email: &mut String,
    stats: &mut Vec<BlameStats>,
    line: &Vec<char>,
) -> (ok: bool)
    ensures
        ok == blame_step_ok(filter@, (old(name)@, old(email)@, views(old(stats)@)), line@),
        ok ==> (final(name)@, final(email)@, views(final(stats)@)) == blame_step(filter@, (old(name)@, old(email)@, views(old(stats)@)), line@),
        !ok ==> final(name)@ == old(name)@ && final(email)@ == old(email)@ && final(stats)@ == old(stats)@,
{
    let ghost st = (name@, email@, views(stats@));
    let author_p = ['a', 'u', 't', 'h', 'o', 'r', ' '];
    let mail_p = ['a', 'u', 't', 'h', 'o', 'r', '-', 'm', 'a', 'i', 'l', ' '];
    assert(author_p@ =~= author_line_prefix());
    assert(mail_p@ =~= mail_line_prefix());
    if starts_with(line, &author_p) {
        *name = string_of(&copy_range(line, 7, line.len()));
        assert(line@.subrange(7, line@.len() as int) =~= line@.skip(7));
        return true;
    }
    if starts_with(line, &mail_p) {
        let rest = copy_range(line, 12, line.len());
        assert(rest@ =~= line@.skip(12));
        *email = string_of(&strip_angles_chars(&rest));
        return true;
    }
    if line.len() > 0 && line[0] == '\t' {
        if filter.is_excluded(name.as_str(), FilterType::Author) || filter.is_excluded(email.as_str(), FilterType::Email) {
            return true;
        }
        if email.as_str().is_empty() {
            return true;
        }
        let k = find_email(stats, email);
        proof {
            lemma_pos_of(blame_emails(st.2), email@);
        }
        if k < stats.len() {
            assert(blame_emails(st.2)[k as int] == stats@[k as int].author_email@);
            if stats[k].lines as u64 + 1 > 0xFFFF_FFFF {
                return false;
            }
            let mut b = BlameStats { author_name: String::new(), author_email: String::new(), lines: 0, top_files: Vec::new() };
            stats.set_and_swap(k, &mut b);
            b.lines = b.lines + 1;
            stats.set(k, b);
        } else {
            let b = BlameStats { author_name: name.clone(), author_email: email.clone(), lines: 1, top_files: Vec::new() };
            assert(views(b.top_files@) =~= Seq::<FileBlameView>::empty());
            stats.push(b);
        }
        assert(views(stats@) =~= blame_step(filter@, st, line@).2);
        return true;
    }
    true
}

/// The per-author line counts of one file's blame output, in the order first seen; `None`
/// when a count would overflow `u32`.
fn blame_run(output: &str, filter: &Filter) -> (r: Option<Vec<BlameStats>>)
    ensures
        r is Some <==> blame_fits(filter@, lines(output@)),
        r matches Some(v) ==> views(v@) == blame_counts(filter@, output@),
{
    let ghost ls = lines(output@);
    let chars = chars_of(output);
    let ls_exec = split_lines(&chars);
    let mut name = String::new();
    let mut email = String::new();
    let mut stats: Vec<BlameStats> = Vec::new();
    let mut i: usize = 0;
    assert(ls.take(0) =~= Seq::<Seq<char>>::empty());
    assert(views(stats@) =~= Seq::<BlameView>::empty());
    while i < ls_exec.len()
        invariant
            i <= ls_exec@.len() == ls.len(),
            ls == lines(output@),
            forall|k: int| 0 <= k < ls_exec@.len() ==> #[trigger] ls_exec@[k]@ == ls[k],
            blame_fits(filter@, ls.take(i as int)),
            (name@, email@, views(stats@)) == blame_fold(filter@, ls.take(i as int)),
        decreases ls_exec@.len() - i,
    {
        assert(ls.take(i + 1).drop_last() =~= ls.take(i as int));
        assert(ls.take(i + 1).last() == ls_exec@[i as int]@);
        if !blame_step_exec(filter, &mut name, &mut email, &mut stats, &ls_exec[i]) {
            proof {
                if blame_fits(filter@, ls) {
                    lemma_blame_fits_prefix(filter@, ls, i + 1);
                }
            }
            return None;
        }
        i = i + 1;
    }
    assert(ls.take(ls_exec@.len() as int) =~= ls);
    Some(stats)
}

/// The per-author line counts of one file's `git blame --line-porcelain` output, in the
/// order first seen.
pub fn parse_blame_output(output: &str, filter: &Filter) -> (r: Vec<BlameStats>)
    requires
        blame_fits(filter@, lines(output@)),
    ensures
        views(r@) == blame_counts(filter@, output@),
        blame_emails(views(r@)).no_duplicates(),
        forall|i: int| 0 <= i < r@.len() ==> (#[trigger] r@[i]).author_email@.len() > 0 && r@[i].lines >= 1
            && r@[i].top_files@.len() == 0,
{
    proof {
        lemma_blame_counts_shape(filter@, output@);
    }
    let r = match blame_run(output, filter) {
        Some(v) => v,
        None => Vec::new(),
    };
    assert forall|i: int| 0 <= i < r@.len() implies (#[trigger] r@[i]).author_email@.len() > 0 && r@[i].lines >= 1
        && r@[i].top_files@.len() == 0 by {
        assert(views(r@)[i] == r@[i]@);
    }
    r
}

/// `parse_blame_output` when no count overflows `u32`, `None` otherwise.
pub fn try_parse_blame_output(output: &str, filter: &Filter) -> (r: Option<Vec<BlameStats>>)
    ensures
        r is Some <==> blame_fits(filter@, lines(output@)),
        r matches Some(v) ==> views(v@) == blame_counts(filter@, output@),
{
    match blame_run(output, filter) {
        Some(_) => Some(parse_blame_output(output, filter)),
        None => None,
    }
}


// ---------------------------------------------------------------- which files to blame

/// The files worth blaming: those with a counted extension that no file rule excludes,
/// in their order.
pub open spec fn blame_targets(exts: Seq<Seq<char>>, rules: Seq<(FilterType, Seq<char>)>, fs: Seq<Seq<char>>) -> Seq<Seq<char>>
    decreases fs.len(),
{
    if fs.len() == 0 {
        Seq::empty()
    } else {
        let rest = blame_targets(exts, rules, fs.drop_last());
        if extension_ok(exts, fs.last()) && !path_excluded_by(rules, fs.last()) {
            rest.push(fs.last())
        } else {
            rest
        }
    }
}

/// The views of a sequence of strings.
pub open spec fn string_views(v: Seq<String>) -> Seq<Seq<char>> {
    v.map_values(|s: String| s@)
}

/// The files of `files` worth blaming (`blame_targets`).
pub fn blame_candidates(config: &Config, filter: &Filter, files: &Vec<String>) -> (r: Vec<String>)
    ensures
        string_views(r@) == blame_targets(config.ext_list(), filter@, string_views(files@)),
{
    let ghost fs = string_views(files@);
    let mut out: Vec<String> = Vec::new();
    let mut i: usize = 0;
    assert(fs.take(0) =~= Seq::<Seq<char>>::empty());
    assert(string_views(out@) =~= Seq::<Seq<char>>::empty());
    while i < files.len()
        invariant
            i <= files@.len() == fs.len(),
            fs == string_views(files@),
            string_views(out@) == blame_targets(config.ext_list(), filter@, fs.take(i as int)),
        decreases files@.len() - i,
    {
        let f = &files[i];
        let chars = chars_of(f.as_str());
        assert(fs.take(i + 1).drop_last() =~= fs.take(i as int));
        assert(fs.take(i + 1).last() == f@);
        if extension_counts(config, &chars) && !filter.should_exclude(f.as_str()) {
            out.push(f.clone());
            assert(string_views(out@) =~= blame_targets(config.ext_list(), filter@, fs.take(i as int)).push(f@));
        }
        i = i + 1;
    }
    assert(fs.take(files@.len() as int) =~= fs);
    out
}

// ---------------------------------------------------------------- merging per-file results

pub open spec fn blame_paths(s: Seq<FileBlameView>) -> Seq<Seq<char>> {
    s.map_values(|f: FileBlameView| f.path)
}

/// `fs` with `n` more lines for `path`.
pub open spec fn add_file_lines(fs: Seq<FileBlameView>, path: Seq<char>, n: nat) -> Seq<FileBlameView> {
    let k = pos_of(blame_paths(fs), path);
    if k >= 0 {
        fs.update(k, FileBlameView { path: fs[k].path, lines: fs[k].lines + n })
    } else {
        fs.push(FileBlameView { path, lines: n })
    }
}

/// The owners so far (each with their files in `top_files`, in the order first seen) with
/// one author's count in file `path` added; the author's name is the one last seen.
pub open spec fn merge_one(accs: Seq<BlameView>, path: Seq<char>, b: BlameView) -> Seq<BlameView> {
    let k = pos_of(blame_emails(accs), b.author_email);
    if k >= 0 {
        accs.update(k, BlameView {
            author_name: b.author_name,
            top_files: add_file_lines(accs[k].top_files, path, b.lines),
            ..accs[k]
        })
    } else {
        accs.push(BlameView {
            author_name: b.author_name,
            author_email: b.author_email,
            lines: 0,
            top_files: add_file_lines(Seq::empty(), path, b.lines),
        })
    }
}

/// Whether `merge_one` stays within `u32`.
pub open spec fn merge_one_ok(accs: Seq<BlameView>, path: Seq<char>, b: BlameView) -> bool {
    let k = pos_of(blame_emails(accs), b.author_email);
    k >= 0 ==> {
        let j = pos_of(blame_paths(accs[k].top_files), path);
        j >= 0 ==> accs[k].top_files[j].lines + b.lines <= u32::MAX
    }
}

/// The owners after adding all counts `bs` of file `path`.
pub open spec fn merge_file(accs: Seq<BlameView>, path: Seq<char>, bs: Seq<BlameView>) -> Seq<BlameView>
    decreases bs.len(),
{
    if bs.len() == 0 {
        accs
    } else {
        merge_one(merge_file(accs, path, bs.drop_last()), path, bs.last())
    }
}

/// Whether every step of `merge_file` stays within `u32`.
pub open spec fn merge_file_ok(accs: Seq<BlameView>, path: Seq<char>, bs: Seq<BlameView>) -> bool
    decreases bs.len(),
{
    bs.len() == 0 || (merge_file_ok(accs, path, bs.drop_last()) && merge_one_ok(merge_file(accs, path, bs.drop_last()), path, bs.last()))
}

/// The owners after adding the per-file results `rs` in order.
pub open spec fn merge_all(rs: Seq<(Seq<char>, Seq<BlameView>)>) -> Seq<BlameView>
    decreases rs.len(),
{
    if rs.len() == 0 {
        Seq::empty()
    } else {
        merge_file(merge_all(rs.drop_last()), rs.last().0, rs.last().1)
    }
}

/// Whether every step of `merge_all` stays within `u32`.
pub open spec fn merge_all_ok(rs: Seq<(Seq<char>, Seq<BlameView>)>) -> bool
    decreases rs.len(),
{
    rs.len() == 0 || (merge_all_ok(rs.drop_last()) && merge_file_ok(merge_all(rs.drop_last()), rs.last().0, rs.last().1))
}

/// The sum of the line counts of `fs`.
pub open spec fn sum_lines(fs: Seq<FileBlameView>) -> nat
    decreases fs.len(),
{
    if fs.len() == 0 {
        0
    } else {
        sum_lines(fs.drop_last()) + fs.last().lines
    }
}

/// An owner's top files: ranked by lines and cut to 10.
pub open spec fn owner_top(acc: BlameView) -> Seq<FileBlameView> {
    let sorted = stable_sort::<FileBlame>(acc.top_files);
    if sorted.len() > 10 {
        sorted.take(10)
    } else {
        sorted
    }
}

/// An owner as reported: as its line count, the lines it owns over all files; and its top
/// files.
pub open spec fn owner_final(acc: BlameView) -> BlameView {
    BlameView { lines: sum_lines(acc.top_files), top_files: owner_top(acc), ..acc }
}

/// The views of per-file results.
pub open spec fn results_view(rs: Seq<(String, Vec<BlameStats>)>) -> Seq<(Seq<char>, Seq<BlameView>)> {
    rs.map_values(|r: (String, Vec<BlameStats>)| (r.0@, views(r.1@)))
}

/// Whether merging `rs` and reporting keeps every count within `u32`.
pub open spec fn ownership_fits(rs: Seq<(Seq<char>, Seq<BlameView>)>) -> bool {
    &&& merge_all_ok(rs)
    &&& forall|i: int| 0 <= i < merge_all(rs).len() ==> sum_lines((#[trigger] merge_all(rs)[i]).top_files) <= u32::MAX
}

/// The ownership report of per-file results `rs`: owners ranked by lines (ties in the order
/// first seen).
pub open spec fn ownership(rs: Seq<(Seq<char>, Seq<BlameView>)>) -> Seq<BlameView> {
    stable_sort::<BlameStats>(merge_all(rs).map_values(|a: BlameView| owner_final(a)))
}

/// The position of `path` among `fs`, or `fs.len()` when absent.
fn find_blame_file(fs: &Vec<FileBlame>, path: &String) -> (r: usize)
    ensures
        r <= fs@.len(),
        r < fs@.len() ==> pos_of(blame_paths(views(fs@)), path@) == r as int,
        r == fs@.len() ==> pos_of(blame_paths(views(fs@)), path@) == -1,
{
    let ghost names = blame_paths(views(fs@));
    let mut i: usize = 0;
    while i < fs.len()
        invariant
            i <= fs@.len(),
            names == blame_paths(views(fs@)),
            forall|j: int| 0 <= j < i ==> fs@[j].path@ != path@,
        decreases fs@.len() - i,
    {
        if fs[i].path == *path {
            proof {
                assert forall|j: int| 0 <= j < names.len() && j < i implies names[j] != path@ by {
                    assert(names[j] == fs@[j].path@);
                }
                lemma_pos_of_is(names, path@, i as int);
            }
            return i;
        }
        i = i + 1;
    }
    proof {
        assert forall|j: int| 0 <= j < names.len() implies names[j] != path@ by {
            assert(names[j] == fs@[j].path@);
        }
        lemma_pos_of_is(names, path@, -1);
    }
    i
}

/// Adds one author's count in file `path` (`merge_one`); `false`, with nothing changed,
/// when a count would overflow.
fn merge_one_exec(accs: &mut Vec<BlameStats>, path: &String, b: &BlameStats) -> (ok: bool)
    ensures
        ok == merge_one_ok(views(old(accs)@), path@, b@),
        ok ==> views(final(accs)@) == merge_one(views(old(accs)@), path@, b@),
        !ok ==> final(accs)@ == old(accs)@,
{
    let ghost a0 = views(accs@);
    let k = find_email(accs, &b.author_email);
    proof {
        lemma_pos_of(blame_emails(a0), b@.author_email);
    }
    if k < accs.len() {
        assert(blame_emails(a0)[k as int] == accs@[k as int].author_email@);
        let j = find_blame_file(&accs[k].top_files, path);
        proof {
            lemma_pos_of(blame_paths(a0[k as int].top_files), path@);
        }
        if j < accs[k].top_files.len() {
            if accs[k].top_files[j].lines as u64 + b.lines as u64 > 0xFFFF_FFFF {
                return false;
            }
        }
        let mut acc = BlameStats { author_name: String::new(), author_email: String::new(), lines: 0, top_files: Vec::new() };
        accs.set_and_swap(k, &mut acc);
        let ghost tf0 = views(acc.top_files@);
        if j < acc.top_files.len() {
            assert(blame_paths(tf0)[j as int] == acc.top_files@[j as int].path@);
            let n = acc.top_files[j].lines + b.lines;
            let p = acc.top_files[j].path.clone();
            acc.top_files.set(j, FileBlame { path: p, lines: n });
        } else {
            acc.top_files.push(FileBlame { path: path.clone(), lines: b.lines });
        }
        assert(views(acc.top_files@) =~= add_file_lines(tf0, path@, b@.lines));
        acc.author_name = b.author_name.clone();
        accs.set(k, acc);
    } else {
        let mut tf: Vec<FileBlame> = Vec::new();
        tf.push(FileBlame { path: path.clone(), lines: b.lines });
        proof {
            lemma_pos_of(blame_paths(Seq::<FileBlameView>::empty()), path@);
        }
        assert(views(tf@) =~= add_file_lines(Seq::empty(), path@, b@.lines));
        accs.push(BlameStats { author_name: b.author_name.clone(), author_email: b.author_email.clone(), lines: 0, top_files: tf });
    }
    assert(views(accs@) =~= merge_one(a0, path@, b@));
    true
}

proof fn lemma_merge_file_ok_prefix(accs: Seq<BlameView>, path: Seq<char>, bs: Seq<BlameView>, k: int)
    requires
        0 <= k <= bs.len(),
        merge_file_ok(accs, path, bs),
    ensures
        merge_file_ok(accs, path, bs.take(k)),
    decreases bs.len() - k,
{
    if k < bs.len() {
        lemma_merge_file_ok_prefix(accs, path, bs, k + 1);
        assert(bs.take(k + 1).drop_last() =~= bs.take(k));
    } else {
        assert(bs.take(k) =~= bs);
    }
}

proof fn lemma_merge_all_ok_prefix(rs: Seq<(Seq<char>, Seq<BlameView>)>, k: int)
    requires
        0 <= k <= rs.len(),
        merge_all_ok(rs),
    ensures
        merge_all_ok(rs.take(k)),
    decreases rs.len() - k,
{
    if k < rs.len() {
        lemma_merge_all_ok_prefix(rs, k + 1);
        assert(rs.take(k + 1).drop_last() =~= rs.take(k));
    } else {
        assert(rs.take(k) =~= rs);
    }
}

/// Merges the per-file results in order (`merge_all`); `None` when a count would overflow.
fn merge_run(results: &Vec<(String, Vec<BlameStats>)>) -> (r: Option<Vec<BlameStats>>)
    ensures
        r is Some <==> merge_all_ok(results_view(results@)),
        r matches Some(v) ==> views(v@) == merge_all(results_view(results@)),
{
    let ghost rs = results_view(results@);
    let mut accs: Vec<BlameStats> = Vec::new();
    let mut i: usize = 0;
    assert(rs.take(0) =~= Seq::<(Seq<char>, Seq<BlameView>)>::empty());
    assert(views(accs@) =~= Seq::<BlameView>::empty());
    while i < results.len()
        invariant
            i <= results@.len() == rs.len(),
            rs == results_view(results@),
            merge_all_ok(rs.take(i as int)),
            views(accs@) == merge_all(rs.take(i as int)),
        decreases results@.len() - i,
    {
        let path = &results[i].0;
        let bs = &results[i].1;
        let ghost before = views(accs@);
        let ghost bv = views(bs@);
        assert(rs.take(i + 1).drop_last() =~= rs.take(i as int));
        assert(rs.take(i + 1).last() == (path@, bv));
        assert(rs[i as int] == (path@, bv));
        let mut j: usize = 0;
        assert(bv.take(0) =~= Seq::<BlameView>::empty());
        while j < bs.len()
            invariant
                i < results@.len() == rs.len(),
                rs == results_view(results@),
                before == merge_all(rs.take(i as int)),
                merge_all_ok(rs.take(i as int)),
                rs[i as int] == (path@, bv),
                rs.take(i + 1).drop_last() == rs.take(i as int),
                rs.take(i + 1).last() == rs[i as int],
                j <= bs@.len() == bv.len(),
                bv == views(bs@),
                merge_file_ok(before, path@, bv.take(j as int)),
                views(accs@) == merge_file(before, path@, bv.take(j as int)),
            decreases bs@.len() - j,
        {
            assert(bv.take(j + 1).drop_last() =~= bv.take(j as int));
            assert(bv.take(j + 1).last() == bs@[j as int]@);
            if !merge_one_exec(&mut accs, path, &bs[j]) {
                proof {
                    if merge_all_ok(rs) {
                        lemma_merge_all_ok_prefix(rs, i + 1);
                        lemma_merge_file_ok_prefix(before, path@, bv, j + 1);
                    }
                }
                return None;
            }
            j = j + 1;
        }
        assert(bv.take(bs@.len() as int) =~= bv);
        i = i + 1;
    }
    assert(rs.take(results@.len() as int) =~= rs);
    Some(accs)
}

/// The sum of the line counts of `fs`, or `None` beyond `u32::MAX`.
fn sum_lines_exec(fs: &Vec<FileBlame>) -> (r: Option<u32>)
    ensures
        r is Some <==> sum_lines(views(fs@)) <= u32::MAX,
        r matches Some(n) ==> n == sum_lines(views(fs@)),
{
    let ghost v = views(fs@);
    let mut total: u64 = 0;
    let mut i: usize = 0;
    assert(v.take(0) =~= Seq::<FileBlameView>::empty());
    while i < fs.len()
        invariant
            i <= fs@.len() == v.len(),
            v == views(fs@),
            total == sum_lines(v.take(i as int)),
            total <= u32::MAX,
        decreases fs@.len() - i,
    {
        assert(v.take(i + 1).drop_last() =~= v.take(i as int));
        total = total + fs[i].lines as u64;
        if total > 0xFFFF_FFFF {
            proof {
                lemma_sum_lines_prefix(v, i + 1);
            }
            return None;
        }
        i = i + 1;
    }
    assert(v.take(fs@.len() as int) =~= v);
    Some(total as u32)
}

/// A prefix sums to at most the whole.
proof fn lemma_sum_lines_prefix(v: Seq<FileBlameView>, k: int)
    requires
        0 <= k <= v.len(),
    ensures
        sum_lines(v.take(k)) <= sum_lines(v),
    decreases v.len() - k,
{
    if k < v.len() {
        lemma_sum_lines_prefix(v, k + 1);
        assert(v.take(k + 1).drop_last() =~= v.take(k));
    } else {
        assert(v.take(k) =~= v);
    }
}

/// The ownership report of per-file results (`ownership`); `None` when a count would
/// overflow `u32`.
fn ownership_run(results: &Vec<(String, Vec<BlameStats>)>) -> (r: Option<Vec<BlameStats>>)
    ensures
        r is Some <==> ownership_fits(results_view(results@)),
        r matches Some(v) ==> views(v@) == ownership(results_view(results@)),
{
    let ghost rs = results_view(results@);
    let mut accs = match merge_run(results) {
        Some(a) => a,
        None => {
            return None;
        },
    };
    let ghost merged = views(accs@);
    let mut i: usize = 0;
    while i < accs.len()
        invariant
            i <= accs@.len() == merged.len(),
            rs == results_view(results@),
            merged == merge_all(rs),
            merge_all_ok(rs),
            forall|k: int| 0 <= k < i ==> #[trigger] accs@[k]@ == owner_final(merged[k]),
            forall|k: int| 0 <= k < i ==> sum_lines((#[trigger] merged[k]).top_files) <= u32::MAX,
            forall|k: int| i <= k < accs@.len() ==> #[trigger] accs@[k]@ == merged[k],
        decreases accs@.len() - i,
    {
        let mut acc = BlameStats { author_name: String::new(), author_email: String::new(), lines: 0, top_files: Vec::new() };
        accs.set_and_swap(i, &mut acc);
        assert(acc@ == merged[i as int]);
        let mut tf: Vec<FileBlame> = Vec::new();
        core::mem::swap(&mut acc.top_files, &mut tf);
        assert(views(tf@) == merged[i as int].top_files);
        match sum_lines_exec(&tf) {
            Some(total) => {
                acc.lines = total;
            },
            None => {
                assert(sum_lines(merge_all(rs)[i as int].top_files) > u32::MAX);
                assert(!ownership_fits(rs));
                return None;
            },
        }
        let mut sorted = stable_sort_vec(tf);
        let ghost full = views(sorted@);
        assert(full == stable_sort::<FileBlame>(merged[i as int].top_files));
        sorted.truncate(10);
        assert(views(sorted@) =~= owner_top(merged[i as int]));
        acc.top_files = sorted;
        assert(acc@ =~= owner_final(merged[i as int]));
        accs.set(i, acc);
        i = i + 1;
    }
    assert(views(accs@) =~= merged.map_values(|a: BlameView| owner_final(a)));
    Some(stable_sort_vec(accs))
}

/// Combines the per-file results `(path, per-author line counts)` of `git blame` into the
/// ownership report: per author, the lines owned over all files and the ten files with most
/// lines.
pub fn merge_blame(results: &Vec<(String, Vec<BlameStats>)>) -> (r: Vec<BlameStats>)
    requires
        ownership_fits(results_view(results@)),
    ensures
        views(r@) == ownership(results_view(results@)),
{
    match ownership_run(results) {
        Some(v) => v,
        None => Vec::new(),
    }
}

/// `merge_blame` when no count overflows `u32`, `None` otherwise.
pub fn try_merge_blame(results: &Vec<(String, Vec<BlameStats>)>) -> (r: Option<Vec<BlameStats>>)
    ensures
        r is Some <==> ownership_fits(results_view(results@)),
        r matches Some(v) ==> views(v@) == ownership(results_view(results@)),
{
    match ownership_run(results) {
        Some(_) => Some(merge_blame(results)),
        None => None,
    }
}

// ---------------------------------------------------------------- what the blame counts

/// Whether line `i` of the blame lines `ls` counts for e-mail `e`: it is a content line (it
/// starts with a tab), and the author that the lines before it last named has e-mail `e`, a
/// non-empty one, and is excluded by no rule.
pub open spec fn counts_for(rules: Seq<(FilterType, Seq<char>)>, ls: Seq<Seq<char>>, i: int, e: Seq<char>) -> bool {
    let st = blame_fold(rules, ls.take(i));
    &&& ls[i].len() > 0 && ls[i][0] == '\t'
    &&& !excluded_by(rules, st.0, FilterType::Author)
    &&& !excluded_by(rules, st.1, FilterType::Email)
    &&& st.1.len() > 0
    &&& st.1 == e
}

/// How many of the blame lines `ls` count for e-mail `e`.
pub open spec fn lines_for(rules: Seq<(FilterType, Seq<char>)>, ls: Seq<Seq<char>>, e: Seq<char>) -> nat
    decreases ls.len(),
{
    if ls.len() == 0 {
        0
    } else {
        lines_for(rules, ls.drop_last(), e) + if counts_for(rules, ls, ls.len() - 1, e) { 1nat } else { 0nat }
    }
}

/// The blame count of e-mail `e`, if any, is the number of lines that count for it, and
/// there is one exactly when a line does.
proof fn lemma_blame_totals(rules: Seq<(FilterType, Seq<char>)>, ls: Seq<Seq<char>>, e: Seq<char>)
    ensures
        ({
            let bs = blame_fold(rules, ls).2;
            let k = pos_of(blame_emails(bs), e);
            &&& k >= 0 ==> bs[k].author_email == e && bs[k].lines == lines_for(rules, ls, e)
            &&& k >= 0 <==> lines_for(rules, ls, e) > 0
        }),
    decreases ls.len(),
{
    let bs = blame_fold(rules, ls).2;
    lemma_pos_of(blame_emails(bs), e);
    if pos_of(blame_emails(bs), e) >= 0 {
        assert(blame_emails(bs)[pos_of(blame_emails(bs), e)] == bs[pos_of(blame_emails(bs), e)].author_email);
    }
    if ls.len() > 0 {
        let prev = ls.drop_last();
        let line = ls.last();
        lemma_blame_totals(rules, prev, e);
        let st = blame_fold(rules, prev);
        let es = blame_emails(st.2);
        lemma_pos_of(es, e);
        let k0 = pos_of(es, e);
        assert(ls.take(ls.len() - 1) =~= prev);
        assert(ls[ls.len() - 1] == line);
        if has_prefix(line, author_line_prefix()) {
            assert(line[0] == line.take(7)[0]);
            assert(!counts_for(rules, ls, ls.len() - 1, e));
        } else if has_prefix(line, mail_line_prefix()) {
            assert(line[0] == line.take(12)[0]);
            assert(!counts_for(rules, ls, ls.len() - 1, e));
        } else if line.len() > 0 && line[0] == '\t' && !(excluded_by(rules, st.0, FilterType::Author)
            || excluded_by(rules, st.1, FilterType::Email) || st.1.len() == 0) {
            let kc = pos_of(es, st.1);
            lemma_pos_of(es, st.1);
            if kc >= 0 {
                assert(es[kc] == st.2[kc].author_email);
                assert(blame_emails(bs) =~= es.update(kc, es[kc]));
                assert(es.update(kc, es[kc]) =~= es);
                if k0 >= 0 {
                    assert(es[k0] == st.2[k0].author_email);
                }
            } else {
                assert(blame_emails(bs) =~= es.push(st.1));
                lemma_pos_of_push(es, st.1, e);
                if k0 >= 0 {
                    assert(es[k0] == st.2[k0].author_email);
                    assert(bs[k0] == st.2[k0]);
                }
            }
        }
    }
}

/// Every author that one file's blame output credits owns exactly the lines that count for
/// their e-mail, at least one; every e-mail with a line that counts is credited.
pub proof fn law_blame_counts_lines(rules: Seq<(FilterType, Seq<char>)>, output: Seq<char>)
    ensures
        forall|i: int| 0 <= i < blame_counts(rules, output).len() ==> {
            let b = #[trigger] blame_counts(rules, output)[i];
            b.lines == lines_for(rules, lines(output), b.author_email) && b.lines > 0
        },
        forall|e: Seq<char>| #[trigger] lines_for(rules, lines(output), e) > 0 ==> blame_emails(blame_counts(rules, output)).contains(e),
{
    let ls = lines(output);
    let bs = blame_counts(rules, output);
    lemma_blame_distinct(rules, ls);
    assert forall|i: int| 0 <= i < bs.len() implies {
        let b = #[trigger] bs[i];
        b.lines == lines_for(rules, ls, b.author_email) && b.lines > 0
    } by {
        let e = bs[i].author_email;
        lemma_blame_totals(rules, ls, e);
        assert(blame_emails(bs)[i] == e);
        lemma_pos_of(blame_emails(bs), e);
        let k = pos_of(blame_emails(bs), e);
        assert(blame_emails(bs)[k] == e);
        assert(k == i);
    }
    assert forall|e: Seq<char>| #[trigger] lines_for(rules, ls, e) > 0 implies blame_emails(bs).contains(e) by {
        lemma_blame_totals(rules, ls, e);
        lemma_pos_of(blame_emails(bs), e);
    }
}

/// Every blame count is for a non-empty e-mail, counts at least one line, and lists no files.
proof fn lemma_blame_entries(rules: Seq<(FilterType, Seq<char>)>, ls: Seq<Seq<char>>)
    ensures
        forall|i: int| 0 <= i < blame_fold(rules, ls).2.len() ==> {
            let b = #[trigger] blame_fold(rules, ls).2[i];
            b.author_email.len() > 0 && b.lines >= 1 && b.top_files.len() == 0
        },
    decreases ls.len(),
{
    if ls.len() > 0 {
        lemma_blame_entries(rules, ls.drop_last());
        let st = blame_fold(rules, ls.drop_last());
        let bs = blame_fold(rules, ls).2;
        let line = ls.last();
        assert forall|i: int| 0 <= i < bs.len() implies {
            let b = #[trigger] bs[i];
            b.author_email.len() > 0 && b.lines >= 1 && b.top_files.len() == 0
        } by {
            if !has_prefix(line, author_line_prefix()) && !has_prefix(line, mail_line_prefix()) && line.len() > 0
                && line[0] == '\t' && !(excluded_by(rules, st.0, FilterType::Author)
                || excluded_by(rules, st.1, FilterType::Email) || st.1.len() == 0) {
                let k = pos_of(blame_emails(st.2), st.1);
                lemma_pos_of(blame_emails(st.2), st.1);
                if k >= 0 {
                    if i != k {
                        assert(bs[i] == st.2[i]);
                    } else {
                        assert(bs[i].author_email == st.2[k].author_email);
                    }
                } else if i < st.2.len() {
                    assert(bs[i] == st.2[i]);
                } else {
                    assert(bs[i].author_email == st.1);
                }
            } else {
                assert(bs == st.2);
            }
        }
    }
}

/// The counts of one file's blame output are for distinct, non-empty e-mails, each at least
/// one line and with no files listed.
pub proof fn lemma_blame_counts_shape(rules: Seq<(FilterType, Seq<char>)>, output: Seq<char>)
    ensures
        blame_emails(blame_counts(rules, output)).no_duplicates(),
        forall|i: int| 0 <= i < blame_counts(rules, output).len() ==> {
            let b = #[trigger] blame_counts(rules, output)[i];
            b.author_email.len() > 0 && b.lines >= 1 && b.top_files.len() == 0
        },
{
    lemma_blame_distinct(rules, lines(output));
    lemma_blame_entries(rules, lines(output));
}

/// No two blame counts share an e-mail.
proof fn lemma_blame_distinct(rules: Seq<(FilterType, Seq<char>)>, ls: Seq<Seq<char>>)
    ensures
        blame_emails(blame_fold(rules, ls).2).no_duplicates(),
    decreases ls.len(),
{
    if ls.len() > 0 {
        let prev = ls.drop_last();
        let line = ls.last();
        lemma_blame_distinct(rules, prev);
        let st = blame_fold(rules, prev);
        let es = blame_emails(st.2);
        let bs = blame_fold(rules, ls).2;
        if !has_prefix(line, author_line_prefix()) && !has_prefix(line, mail_line_prefix()) && line.len() > 0
            && line[0] == '\t' && !(excluded_by(rules, st.0, FilterType::Author)
            || excluded_by(rules, st.1, FilterType::Email) || st.1.len() == 0) {
            let kc = pos_of(es, st.1);
            lemma_pos_of(es, st.1);
            if kc >= 0 {
                assert(es[kc] == st.2[kc].author_email);
                assert(blame_emails(bs) =~= es.update(kc, es[kc]));
                assert(es.update(kc, es[kc]) =~= es);
            } else {
                assert(blame_emails(bs) =~= es.push(st.1));
                crate::seqs::lemma_push_new(es, st.1);
            }
        } else {
            assert(blame_emails(bs) =~= es);
        }
    }
}

// ---------------------------------------------------------------- what the owners own

/// The lines that the counts `bs` of one file credit to e-mail `e`.
pub open spec fn counts_of(bs: Seq<BlameView>, e: Seq<char>) -> nat
    decreases bs.len(),
{
    if bs.len() == 0 {
        0
    } else {
        counts_of(bs.drop_last(), e) + if bs.last().author_email == e { bs.last().lines } else { 0nat }
    }
}

/// The lines that the per-file results `rs` credit to e-mail `e`, over all files.
pub open spec fn owned_by(rs: Seq<(Seq<char>, Seq<BlameView>)>, e: Seq<char>) -> nat
    decreases rs.len(),
{
    if rs.len() == 0 {
        0
    } else {
        owned_by(rs.drop_last(), e) + counts_of(rs.last().1, e)
    }
}

/// Replacing one file's entry changes the sum by the difference.
proof fn lemma_sum_lines_update(fs: Seq<FileBlameView>, k: int, f: FileBlameView)
    requires
        0 <= k < fs.len(),
    ensures
        sum_lines(fs.update(k, f)) + fs[k].lines == sum_lines(fs) + f.lines,
    decreases fs.len(),
{
    let t = fs.update(k, f);
    if k == fs.len() - 1 {
        assert(t.drop_last() =~= fs.drop_last());
    } else {
        lemma_sum_lines_update(fs.drop_last(), k, f);
        assert(t.drop_last() =~= fs.drop_last().update(k, f));
    }
}

/// Adding `n` lines to a file adds `n` to the sum.
proof fn lemma_sum_add_file_lines(fs: Seq<FileBlameView>, path: Seq<char>, n: nat)
    ensures
        sum_lines(add_file_lines(fs, path, n)) == sum_lines(fs) + n,
{
    let k = pos_of(blame_paths(fs), path);
    lemma_pos_of(blame_paths(fs), path);
    if k >= 0 {
        lemma_sum_lines_update(fs, k, FileBlameView { path: fs[k].path, lines: fs[k].lines + n });
    } else {
        let x = FileBlameView { path, lines: n };
        assert(fs.push(x).drop_last() =~= fs);
    }
}

/// What one merge step does to e-mail `e`'s entry: its total grows by the lines credited to
/// `e`, and no two entries share an e-mail.
proof fn lemma_merge_one_totals(accs: Seq<BlameView>, path: Seq<char>, b: BlameView, e: Seq<char>)
    requires
        blame_emails(accs).no_duplicates(),
    ensures
        ({
            let next = merge_one(accs, path, b);
            let k0 = pos_of(blame_emails(accs), e);
            let k = pos_of(blame_emails(next), e);
            let add = if b.author_email == e { b.lines } else { 0nat };
            &&& blame_emails(next).no_duplicates()
            &&& k >= 0 ==> next[k].author_email == e && sum_lines(next[k].top_files) == (if k0 >= 0 { sum_lines(accs[k0].top_files) } else { 0nat }) + add
            &&& k < 0 ==> k0 < 0 && add == 0
        }),
{
    let es = blame_emails(accs);
    let next = merge_one(accs, path, b);
    let kb = pos_of(es, b.author_email);
    lemma_pos_of(es, b.author_email);
    lemma_pos_of(es, e);
    let k0 = pos_of(es, e);
    if kb >= 0 {
        assert(es[kb] == accs[kb].author_email);
        assert(blame_emails(next) =~= es.update(kb, es[kb]));
        assert(es.update(kb, es[kb]) =~= es);
        lemma_sum_add_file_lines(accs[kb].top_files, path, b.lines);
        if k0 >= 0 {
            assert(es[k0] == accs[k0].author_email);
        }
    } else {
        assert(blame_emails(next) =~= es.push(b.author_email));
        lemma_push_new(es, b.author_email);
        lemma_pos_of_push(es, b.author_email, e);
        lemma_sum_add_file_lines(Seq::empty(), path, b.lines);
        assert(sum_lines(Seq::<FileBlameView>::empty()) == 0);
        if k0 >= 0 {
            assert(es[k0] == accs[k0].author_email);
            assert(next[k0] == accs[k0]);
        }
    }
    let k = pos_of(blame_emails(next), e);
    lemma_pos_of(blame_emails(next), e);
    if k >= 0 {
        assert(blame_emails(next)[k] == next[k].author_email);
    }
}

/// E-mail `e`'s entry after merging one file's counts holds what it held plus the lines
/// they credit to `e`.
proof fn lemma_merge_file_totals(accs: Seq<BlameView>, path: Seq<char>, bs: Seq<BlameView>, e: Seq<char>)
    requires
        blame_emails(accs).no_duplicates(),
    ensures
        ({
            let next = merge_file(accs, path, bs);
            let k0 = pos_of(blame_emails(accs), e);
            let k = pos_of(blame_emails(next), e);
            &&& blame_emails(next).no_duplicates()
            &&& k >= 0 ==> next[k].author_email == e
                && sum_lines(next[k].top_files) == (if k0 >= 0 { sum_lines(accs[k0].top_files) } else { 0nat }) + counts_of(bs, e)
            &&& k < 0 ==> k0 < 0 && counts_of(bs, e) == 0
        }),
    decreases bs.len(),
{
    if bs.len() > 0 {
        lemma_merge_file_totals(accs, path, bs.drop_last(), e);
        lemma_merge_one_totals(merge_file(accs, path, bs.drop_last()), path, bs.last(), e);
    } else {
        let es = blame_emails(accs);
        lemma_pos_of(es, e);
        if pos_of(es, e) >= 0 {
            assert(es[pos_of(es, e)] == accs[pos_of(es, e)].author_email);
        }
    }
}

/// E-mail `e`'s entry after merging all results holds exactly the lines they credit to `e`,
/// and no two entries share an e-mail.
proof fn lemma_merge_all_totals(rs: Seq<(Seq<char>, Seq<BlameView>)>, e: Seq<char>)
    ensures
        blame_emails(merge_all(rs)).no_duplicates(),
        ({
            let m = merge_all(rs);
            let k = pos_of(blame_emails(m), e);
            &&& k >= 0 ==> m[k].author_email == e && sum_lines(m[k].top_files) == owned_by(rs, e)
            &&& k < 0 ==> owned_by(rs, e) == 0
        }),
    decreases rs.len(),
{
    if rs.len() == 0 {
        assert(blame_emails(merge_all(rs)) =~= Seq::<Seq<char>>::empty());
        lemma_pos_of(blame_emails(merge_all(rs)), e);
    } else {
        lemma_merge_all_totals(rs.drop_last(), e);
        lemma_merge_file_totals(merge_all(rs.drop_last()), rs.last().0, rs.last().1, e);
    }
}

/// Every owner of the ownership report has as its lines all the lines that the per-file
/// results credit to its e-mail, over all files, while it lists at most its ten largest
/// files; every e-mail credited with a line is an owner, and no two owners share an e-mail.
pub proof fn law_owners_own_all_their_lines(rs: Seq<(Seq<char>, Seq<BlameView>)>)
    ensures
        forall|i: int| 0 <= i < ownership(rs).len() ==> (#[trigger] ownership(rs)[i]).lines == owned_by(rs, ownership(rs)[i].author_email),
        forall|e: Seq<char>| #[trigger] owned_by(rs, e) > 0 ==> blame_emails(ownership(rs)).contains(e),
        forall|i: int, j: int| 0 <= i < j < ownership(rs).len() ==> #[trigger] ownership(rs)[i].author_email != #[trigger] ownership(rs)[j].author_email,
{
    let m = merge_all(rs);
    let pre = m.map_values(|a: BlameView| owner_final(a));
    let s = ownership(rs);
    lemma_merge_all_totals(rs, Seq::empty());
    let es = blame_emails(m);
    assert forall|i: int| 0 <= i < s.len() implies (#[trigger] s[i]).lines == owned_by(rs, s[i].author_email) by {
        assert(s.contains(s[i]));
        lemma_stable_sort_contains::<BlameStats>(pre, s[i]);
        let k = choose|k: int| 0 <= k < pre.len() && pre[k] == s[i];
        let e = m[k].author_email;
        lemma_merge_all_totals(rs, e);
        assert(es[k] == e);
        lemma_pos_of(es, e);
        let kk = pos_of(es, e);
        assert(es[kk] == e);
        assert(kk == k);
    }
    assert forall|e: Seq<char>| #[trigger] owned_by(rs, e) > 0 implies blame_emails(s).contains(e) by {
        lemma_merge_all_totals(rs, e);
        lemma_pos_of(es, e);
        let k = pos_of(es, e);
        assert(pre[k] == owner_final(m[k]));
        assert(pre.contains(pre[k]));
        lemma_stable_sort_contains::<BlameStats>(pre, pre[k]);
        let i = choose|i: int| 0 <= i < s.len() && s[i] == pre[k];
        assert(blame_emails(s)[i] == e);
    }
    assert forall|i: int, j: int| 0 <= i < j < s.len() implies #[trigger] s[i].author_email != #[trigger] s[j].author_email by {
        assert forall|a: int, b: int| 0 <= a < pre.len() && 0 <= b < pre.len() && a != b implies pre[a] != pre[b] by {
            assert(es[a] == pre[a].author_email && es[b] == pre[b].author_email);
        }
        lemma_stable_sort_no_duplicates::<BlameStats>(pre);
        assert(s[i] != s[j]);
        assert(s.contains(s[i]) && s.contains(s[j]));
        lemma_stable_sort_contains::<BlameStats>(pre, s[i]);
        lemma_stable_sort_contains::<BlameStats>(pre, s[j]);
        let ki = choose|k: int| 0 <= k < pre.len() && pre[k] == s[i];
        let kj = choose|k: int| 0 <= k < pre.len() && pre[k] == s[j];
        assert(ki != kj);
        assert(es[ki] == pre[ki].author_email && es[kj] == pre[kj].author_email);
    }
}

// ---------------------------------------------------------------- whom a line counts for

/// The name on the last line of `ls` that starts with `author `, or empty.
pub open spec fn last_author_name(ls: Seq<Seq<char>>) -> Seq<char>
    decreases ls.len(),
{
    if ls.len() == 0 {
        Seq::empty()
    } else if has_prefix(ls.last(), "author "@) {
        ls.last().skip(7)
    } else {
        last_author_name(ls.drop_last())
    }
}

/// The e-mail on the last line of `ls` that starts with `author-mail `, without its angle
/// brackets, or empty.
pub open spec fn last_author_mail(ls: Seq<Seq<char>>) -> Seq<char>
    decreases ls.len(),
{
    if ls.len() == 0 {
        Seq::empty()
    } else if has_prefix(ls.last(), "author-mail "@) {
        strip_angles(ls.last().skip(12))
    } else {
        last_author_mail(ls.drop_last())
    }
}

/// While reading blame lines, the current author is the one that the last `author ` line
/// names and the current e-mail the one that the last `author-mail ` line names; no other
/// line (such as `committer-mail `) changes them.
pub proof fn law_blame_current_author(rules: Seq<(FilterType, Seq<char>)>, ls: Seq<Seq<char>>)
    ensures
        blame_fold(rules, ls).0 == last_author_name(ls),
        blame_fold(rules, ls).1 == last_author_mail(ls),
    decreases ls.len(),
{
    reveal_strlit("author ");
    reveal_strlit("author-mail ");
    assert("author "@ =~= author_line_prefix());
    assert("author-mail "@ =~= mail_line_prefix());
    if ls.len() > 0 {
        law_blame_current_author(rules, ls.drop_last());
        let line = ls.last();
        if has_prefix(line, author_line_prefix()) {
            assert(line.take(7)[6] == ' ');
            assert(!has_prefix(line, mail_line_prefix())) by {
                if line.len() >= 12 {
                    assert(line.take(12)[6] == line[6]);
                    assert(line.take(7)[6] == line[6]);
                }
            }
        }
        if has_prefix(line, mail_line_prefix()) {
            assert(!has_prefix(line, author_line_prefix())) by {
                assert(line.take(12)[6] == line[6]);
                assert(line.take(7)[6] == line[6]);
            }
        }
        if line.len() > 0 && line[0] == '\t' {
            assert(!has_prefix(line, author_line_prefix())) by {
                if line.len() >= 7 {
                    assert(line.take(7)[0] == line[0]);
                }
            }
            assert(!has_prefix(line, mail_line_prefix())) by {
                if line.len() >= 12 {
                    assert(line.take(12)[0] == line[0]);
                }
            }
        }
    }
}

/// Line `i` of blame output counts for e-mail `e` exactly when it is a content line (it
/// starts with a tab), `e` is the non-empty e-mail of the last `author-mail ` line before it,
/// and neither that e-mail nor the name of the last `author ` line before it is excluded.
pub proof fn law_blame_line_owner(rules: Seq<(FilterType, Seq<char>)>, ls: Seq<Seq<char>>, i: int, e: Seq<char>)
    requires
        0 <= i < ls.len(),
    ensures
        counts_for(rules, ls, i, e) <==> {
            &&& ls[i].len() > 0 && ls[i][0] == '\t'
            &&& e == last_author_mail(ls.take(i))
            &&& e.len() > 0
            &&& !excluded_by(rules, last_author_name(ls.take(i)), FilterType::Author)
            &&& !excluded_by(rules, e, FilterType::Email)
        },
{
    law_blame_current_author(rules, ls.take(i));
}

} // verus!
