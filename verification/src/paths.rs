//! File names of paths, as `std::path::Path::file_name` reads them on Unix.
use vstd::prelude::*;
use crate::seqs::views;
use crate::strutil::{chars_eq, chars_of, string_of};
use crate::textops::{split_on, split_on_chars};

verus! {

/// The last piece of `pieces` that is a path component: neither empty (from a repeated or
/// trailing `/`) nor `.`.
pub open spec fn last_component(pieces: Seq<Seq<char>>) -> Option<Seq<char>>
    decreases pieces.len(),
{
    if pieces.len() == 0 {
        None
    } else if pieces.last().len() == 0 || pieces.last() == "."@ {
        last_component(pieces.drop_last())
    } else {
        Some(pieces.last())
    }
}

/// The final component of `path` (`/`-separated), as `std::path::Path::file_name` gives it:
/// `None` for a path without one (such as `/` or `.`) or whose final component is `..`.
pub open spec fn path_file_name(path: Seq<char>) -> Option<Seq<char>> {
    match last_component(split_on(path, '/')) {
        Some(c) => if c == ".."@ {
            None
        } else {
            Some(c)
        },
        None => None,
    }
}

/// A file name is never empty.
pub proof fn lemma_file_name_nonempty(path: Seq<char>)
    ensures
        path_file_name(path) matches Some(n) ==> n.len() > 0,
{
    lemma_last_component_nonempty(split_on(path, '/'));
}

proof fn lemma_last_component_nonempty(pieces: Seq<Seq<char>>)
    ensures
        last_component(pieces) matches Some(c) ==> c.len() > 0,
    decreases pieces.len(),
{
    if pieces.len() > 0 {
        lemma_last_component_nonempty(pieces.drop_last());
    }
}

/// The final component of `path` (`path_file_name`).
pub(crate) fn file_name_of(path: &str) -> (r: Option<String>)
    ensures
        match r {
            Some(n) => path_file_name(path@) == Some(n@),
            None => path_file_name(path@) is None,
        },
{
    let pieces = split_on_chars(&chars_of(path), '/');
    let ghost ps = views(pieces@);
    let dot = chars_of(".");
    let dotdot = chars_of("..");
    let mut i = pieces.len();
    assert(ps.take(i as int) =~= ps);
    while i > 0
        invariant
            i <= pieces@.len(),
            ps == views(pieces@),
            ps == split_on(path@, '/'),
            dot@ == "."@,
            dotdot@ == ".."@,
            last_component(ps) == last_component(ps.take(i as int)),
        decreases i,
    {
        let ghost t = ps.take(i as int);
        assert(t.last() == pieces@[i - 1]@);
        assert(t.drop_last() =~= ps.take(i - 1));
        let p = &pieces[i - 1];
        if p.len() > 0 && !chars_eq(p, &dot) {
            if chars_eq(p, &dotdot) {
                return None;
            }
            return Some(string_of(p));
        }
        i = i - 1;
    }
    assert(ps.take(0) =~= Seq::<Seq<char>>::empty());
    None
}

/// The file name of `path`, or `path` itself when it has none.
pub open spec fn display_name(path: Seq<char>) -> Seq<char> {
    match path_file_name(path) {
        Some(n) => n,
        None => path,
    }
}

/// Executable `display_name`.
pub fn display_name_of(path: &String) -> (r: String)
    ensures
        r@ == display_name(path@),
{
    match file_name_of(path.as_str()) {
        Some(n) => n,
        None => path.clone(),
    }
}

} // verus!
