//! What the `git` command-line provider asks for and how it reads the answers.
use vstd::prelude::*;
use crate::blame::string_views;
use crate::config::Config;
use crate::strutil::{chars_of, lines, push_str, split_lines, string_of, strip_leading, strip_leading_char, trim, trim_chars};

verus! {

/// Reads repository data by running the `git` command line.
pub struct CliGitProvider;

impl CliGitProvider {
    /// The provider.
    pub fn new() -> (r: Self) {
        CliGitProvider
    }
}

/// The lines of an output, each as a string (the tracked files of `git ls-tree --name-only`).
pub fn parse_tracked_files(stdout: &str) -> (r: Vec<String>)
    ensures
        string_views(r@) == lines(stdout@),
{
    let chars = chars_of(stdout);
    let ls = split_lines(&chars);
    let mut out: Vec<String> = Vec::new();
    let mut i: usize = 0;
    while i < ls.len()
        invariant
            i <= ls@.len() == lines(stdout@).len(),
            forall|k: int| 0 <= k < ls@.len() ==> #[trigger] ls@[k]@ == lines(stdout@)[k],
            out@.len() == i,
            forall|k: int| 0 <= k < i ==> #[trigger] out@[k]@ == lines(stdout@)[k],
        decreases ls@.len() - i,
    {
        out.push(string_of(&ls[i]));
        i = i + 1;
    }
    assert(string_views(out@) =~= lines(stdout@));
    out
}

/// The branch named on a line of `git branch -a`: the line trimmed, without the `*` that
/// marks the current branch, trimmed again.
pub open spec fn branch_of(line: Seq<char>) -> Seq<char> {
    trim(strip_leading(trim(line), '*'))
}

/// The non-empty branch names of the lines `ls`, in order.
pub open spec fn branch_list(ls: Seq<Seq<char>>) -> Seq<Seq<char>>
    decreases ls.len(),
{
    if ls.len() == 0 {
        Seq::empty()
    } else {
        let rest = branch_list(ls.drop_last());
        if branch_of(ls.last()).len() > 0 {
            rest.push(branch_of(ls.last()))
        } else {
            rest
        }
    }
}

/// The branches listed by `git branch -a --no-color` (`branch_list` of its lines).
pub fn parse_branches(stdout: &str) -> (r: Vec<String>)
    ensures
        string_views(r@) == branch_list(lines(stdout@)),
{
    let ghost all = lines(stdout@);
    let chars = chars_of(stdout);
    let ls = split_lines(&chars);
    let mut out: Vec<String> = Vec::new();
    let mut i: usize = 0;
    assert(all.take(0) =~= Seq::<Seq<char>>::empty());
    assert(string_views(out@) =~= Seq::<Seq<char>>::empty());
    while i < ls.len()
        invariant
            i <= ls@.len() == all.len(),
            all == lines(stdout@),
            forall|k: int| 0 <= k < ls@.len() ==> #[trigger] ls@[k]@ == all[k],
            string_views(out@) == branch_list(all.take(i as int)),
        decreases ls@.len() - i,
    {
        let t = trim_chars(&ls[i]);
        let s = strip_leading_char(&t, '*');
        let b = trim_chars(&s);
        assert(all.take(i + 1).drop_last() =~= all.take(i as int));
        assert(all.take(i + 1).last() == all[i as int]);
        assert(b@ == branch_of(all[i as int]));
        if b.len() > 0 {
            out.push(string_of(&b));
            assert(string_views(out@) =~= branch_list(all.take(i as int)).push(b@));
        }
        i = i + 1;
    }
    assert(all.take(ls@.len() as int) =~= all);
    out
}

/// The arguments of the `git log` run that lists commits with their changes: numstat
/// output, headers `commit|hash|name|email|date|subject` with UNIX dates, no merges, and the
/// configured `--since` / `--until` bounds.
pub open spec fn log_args(config: Config) -> Seq<Seq<char>> {
    seq!["log"@, "--numstat"@, "--pretty=format:commit|%h|%an|%ae|%ad|%s"@, "--no-merges"@, "--date=unix"@]
        + match config.since {
            Some(s) => seq!["--since="@ + s@],
            None => Seq::empty(),
        }
        + match config.until {
            Some(u) => seq!["--until="@ + u@],
            None => Seq::empty(),
        }
}

fn text(s: &str) -> (r: String)
    ensures
        r@ == s@,
{
    s.to_string()
}

fn joined(a: &str, b: &String) -> (r: String)
    ensures
        r@ == a@ + b@,
{
    let mut v: Vec<char> = Vec::new();
    push_str(&mut v, a);
    push_str(&mut v, b.as_str());
    string_of(&v)
}

/// The arguments of the `git log` run (`log_args`).
pub fn git_log_args(config: &Config) -> (r: Vec<String>)
    ensures
        string_views(r@) == log_args(*config),
{
    let mut out: Vec<String> = Vec::new();
    out.push(text("log"));
    out.push(text("--numstat"));
    out.push(text("--pretty=format:commit|%h|%an|%ae|%ad|%s"));
    out.push(text("--no-merges"));
    out.push(text("--date=unix"));
    match &config.since {
        Some(s) => {
            out.push(joined("--since=", s));
        },
        None => {},
    }
    match &config.until {
        Some(u) => {
            out.push(joined("--until=", u));
        },
        None => {},
    }
    assert(string_views(out@) =~= log_args(*config));
    out
}

} // verus!
