//! What identifies the analysed repository in a report: its name, its current branch and the
//! web address of its `origin` remote.
use vstd::prelude::*;
use crate::paths::{file_name_of, lemma_file_name_nonempty, path_file_name};
use crate::strutil::{chars_eq, chars_of, has_prefix, starts_with, string_of, trim, trim_chars};
use crate::textops::{has_suffix, replace_all, replace_text, text_ends_with};

verus! {

/// The name shown for the repository at `repo_path`: the final component of its canonical
/// path when it has been resolved and has one; else the final component of `repo_path`
/// itself, unless that is `.` or `..`; else `Repository`.
pub open spec fn repo_name(repo_path: Seq<char>, canonical: Option<Seq<char>>) -> Seq<char> {
    let resolved = match canonical {
        Some(a) => path_file_name(a),
        None => None,
    };
    match resolved {
        Some(n) => n,
        None => match path_file_name(repo_path) {
            Some(n) => if n != "."@ && n != ".."@ {
                n
            } else {
                "Repository"@
            },
            None => "Repository"@,
        },
    }
}

/// The name shown for a repository is never empty.
pub proof fn law_repo_name_nonempty(repo_path: Seq<char>, canonical: Option<Seq<char>>)
    ensures
        repo_name(repo_path, canonical).len() > 0,
{
    reveal_strlit("Repository");
    lemma_file_name_nonempty(repo_path);
    match canonical {
        Some(a) => lemma_file_name_nonempty(a),
        None => {},
    }
}

/// The name of the repository at `repo_path`, given its canonical path (`None` when it could
/// not be resolved): `repo_name`.
pub fn get_repo_name(repo_path: &str, canonical: Option<&str>) -> (r: String)
    ensures
        r@ == repo_name(
            repo_path@,
            match canonical {
                Some(a) => Some(a@),
                None => None,
            },
        ),
{
    match canonical {
        Some(a) => match file_name_of(a) {
            Some(n) => {
                return n;
            },
            None => {},
        },
        None => {},
    }
    match file_name_of(repo_path) {
        Some(n) => {
            let c = chars_of(n.as_str());
            let dot = chars_of(".");
            let dotdot = chars_of("..");
            if !chars_eq(&c, &dot) && !chars_eq(&c, &dotdot) {
                n
            } else {
                "Repository".to_string()
            }
        },
        None => "Repository".to_string(),
    }
}

/// The current branch, from the output of `git branch --show-current` when that ran and
/// succeeded: the output trimmed, or `HEAD` when that leaves nothing or there is no output.
pub open spec fn branch_name(stdout: Option<Seq<char>>) -> Seq<char> {
    match stdout {
        Some(o) => if trim(o).len() > 0 {
            trim(o)
        } else {
            "HEAD"@
        },
        None => "HEAD"@,
    }
}

/// The current branch (`branch_name`).
pub fn get_branch_name(stdout: Option<&str>) -> (r: String)
    ensures
        r@ == branch_name(
            match stdout {
                Some(o) => Some(o@),
                None => None,
            },
        ),
{
    match stdout {
        Some(o) => {
            let t = trim_chars(&chars_of(o));
            if t.len() > 0 {
                string_of(&t)
            } else {
                "HEAD".to_string()
            }
        },
        None => "HEAD".to_string(),
    }
}

/// The web address of a remote, from the output of `git remote get-url`: the output trimmed,
/// without a final `.git`; an SSH address `git@host:path` becomes `https://host/path` (every
/// `:` turned into `/`, then every `git@` into `https://`).
pub open spec fn remote_url(stdout: Seq<char>) -> Seq<char> {
    let t = trim(stdout);
    let u = if has_suffix(t, ".git"@) {
        t.take(t.len() - ".git"@.len())
    } else {
        t
    };
    if has_prefix(u, "git@"@) {
        replace_all(replace_all(u, ":"@, "/"@), "git@"@, "https://"@)
    } else {
        u
    }
}

/// The web address of the `origin` remote, from the output of `git remote get-url origin`
/// when that ran and succeeded (`remote_url`), else `None`.
pub fn get_remote_url(stdout: Option<&str>) -> (r: Option<String>)
    ensures
        match stdout {
            Some(o) => r matches Some(u) && u@ == remote_url(o@),
            None => r is None,
        },
{
    match stdout {
        Some(o) => {
            let t = trim_chars(&chars_of(o));
            let suffix = chars_of(".git");
            let u = if text_ends_with(&t, &suffix) {
                let mut cut = t;
                let keep = cut.len() - suffix.len();
                cut.truncate(keep);
                assert(cut@ =~= trim(o@).take(trim(o@).len() - ".git"@.len()));
                cut
            } else {
                t
            };
            let git_at = chars_of("git@");
            if starts_with(&u, &git_at) {
                let colon = chars_of(":");
                let slash = chars_of("/");
                let https = chars_of("https://");
                proof {
                    reveal_strlit(":");
                    reveal_strlit("git@");
                }
                let v = replace_text(&u, &colon, &slash);
                let w = replace_text(&v, &git_at, &https);
                Some(string_of(&w))
            } else {
                Some(string_of(&u))
            }
        },
        None => None,
    }
}

} // verus!
