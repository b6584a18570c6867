//! Splitting, joining, searching and replacing text, as `str`'s methods do it.
use vstd::prelude::*;
use crate::seqs::views;
use crate::strutil::{copy_range, find_char_from, index_of, lemma_index_of, lemma_index_of_is, push_all};

verus! {

// ---------------------------------------------------------------- splitting on a character

/// The pieces of `s` between occurrences of `c` (what `str::split(c)` yields): always one
/// more piece than `s` holds `c`s.
pub open spec fn split_on(s: Seq<char>, c: char) -> Seq<Seq<char>>
    decreases s.len(),
{
    let k = index_of(s, c);
    if k < 0 {
        seq![s]
    } else {
        proof {
            lemma_index_of(s, c);
        }
        seq![s.take(k)] + split_on(s.skip(k + 1), c)
    }
}

/// Executable `split_on`.
pub fn split_on_chars(s: &[char], c: char) -> (r: Vec<Vec<char>>)
    ensures
        views(r@) == split_on(s@, c),
{
    let n = s.len();
    let mut out: Vec<Vec<char>> = Vec::new();
    let mut start: usize = 0;
    let ghost acc: Seq<Seq<char>> = Seq::empty();
    assert(s@.skip(0) =~= s@);
    loop
        invariant
            start <= n == s@.len(),
            views(out@) == acc,
            acc + split_on(s@.skip(start as int), c) == split_on(s@, c),
        decreases n - start,
    {
        let e = find_char_from(s, c, start);
        let ghost rest = s@.skip(start as int);
        proof {
            if e < n {
                lemma_index_of_is(rest, c, e - start);
            } else {
                lemma_index_of_is(rest, c, -1);
            }
        }
        if e < n {
            let piece = copy_range(s, start, e);
            assert(rest.take(e - start) =~= s@.subrange(start as int, e as int));
            assert(rest.skip(e - start + 1) =~= s@.skip(e + 1));
            proof {
                acc = acc.push(piece@);
            }
            out.push(piece);
            assert(views(out@) =~= acc);
            assert(acc + split_on(s@.skip(e + 1), c) =~= (acc.drop_last() + seq![acc.last()])
                + split_on(s@.skip(e + 1), c));
            start = e + 1;
        } else {
            let piece = copy_range(s, start, n);
            assert(piece@ =~= rest);
            proof {
                acc = acc.push(piece@);
            }
            out.push(piece);
            assert(views(out@) =~= acc);
            assert(acc =~= split_on(s@, c));
            return out;
        }
    }
}

// ---------------------------------------------------------------- joining

/// The pieces `ws` with `sep` between each two (what `[&str]::join` gives for a
/// one-character separator).
pub open spec fn join_with(ws: Seq<Seq<char>>, sep: char) -> Seq<char>
    decreases ws.len(),
{
    if ws.len() == 0 {
        Seq::empty()
    } else if ws.len() == 1 {
        ws[0]
    } else {
        join_with(ws.drop_last(), sep).push(sep) + ws.last()
    }
}

/// `join_with` of the pieces `ws[from..]`.
pub fn join_from(ws: &Vec<Vec<char>>, from: usize, sep: char) -> (r: Vec<char>)
    requires
        from <= ws@.len(),
    ensures
        r@ == join_with(views(ws@).skip(from as int), sep),
{
    let ghost all = views(ws@);
    let mut out: Vec<char> = Vec::new();
    let mut i = from;
    assert(all.subrange(from as int, from as int) =~= Seq::<Seq<char>>::empty());
    while i < ws.len()
        invariant
            from <= i <= ws@.len(),
            all == views(ws@),
            out@ == join_with(all.subrange(from as int, i as int), sep),
        decreases ws@.len() - i,
    {
        let ghost part = all.subrange(from as int, i + 1);
        assert(part.drop_last() =~= all.subrange(from as int, i as int));
        assert(part.last() == ws@[i as int]@);
        if i > from {
            out.push(sep);
        }
        push_all(&mut out, ws[i].as_slice());
        i = i + 1;
    }
    assert(all.subrange(from as int, ws@.len() as int) =~= all.skip(from as int));
    out
}

// ---------------------------------------------------------------- searching for text

/// Whether `p` occurs in `s` starting at position `i`.
pub open spec fn occurs_at(s: Seq<char>, p: Seq<char>, i: int) -> bool {
    0 <= i && i + p.len() <= s.len() && s.subrange(i, i + p.len()) == p
}

/// Whether `p` occurs anywhere in `s` (what `str::contains` tests for a string pattern).
pub open spec fn contains_text(s: Seq<char>, p: Seq<char>) -> bool {
    exists|i: int| #[trigger] occurs_at(s, p, i)
}

/// Whether `s` ends with `p` (what `str::ends_with` tests).
pub open spec fn has_suffix(s: Seq<char>, p: Seq<char>) -> bool {
    occurs_at(s, p, s.len() - p.len())
}

/// Executable `occurs_at`.
pub fn matches_at(s: &[char], p: &[char], i: usize) -> (r: bool)
    ensures
        r == occurs_at(s@, p@, i as int),
{
    if p.len() > s.len() || i > s.len() - p.len() {
        return false;
    }
    let mut j: usize = 0;
    while j < p.len()
        invariant
            j <= p@.len(),
            i + p@.len() <= s@.len() == s.len(),
            p@.len() == p.len(),
            forall|m: int| 0 <= m < j ==> s@[i + m] == p@[m],
        decreases p@.len() - j,
    {
        if s[i + j] != p[j] {
            assert(s@.subrange(i as int, i + p@.len())[j as int] != p@[j as int]);
            return false;
        }
        j = j + 1;
    }
    assert(s@.subrange(i as int, i + p@.len()) =~= p@);
    true
}

/// Executable `contains_text`.
pub fn text_contains(s: &[char], p: &[char]) -> (r: bool)
    ensures
        r == contains_text(s@, p@),
{
    if p.len() > s.len() {
        assert forall|i: int| !#[trigger] occurs_at(s@, p@, i) by {}
        return false;
    }
    let last = s.len() - p.len();
    let mut i: usize = 0;
    while i <= last
        invariant
            last == s@.len() - p@.len(),
            forall|k: int| 0 <= k < i ==> !#[trigger] occurs_at(s@, p@, k),
        decreases last + 1 - i,
    {
        if matches_at(s, p, i) {
            return true;
        }
        if i == last {
            assert forall|k: int| !#[trigger] occurs_at(s@, p@, k) by {}
            return false;
        }
        i = i + 1;
    }
    false
}

/// Executable `has_suffix`.
pub fn text_ends_with(s: &[char], p: &[char]) -> (r: bool)
    ensures
        r == has_suffix(s@, p@),
{
    if p.len() > s.len() {
        return false;
    }
    matches_at(s, p, s.len() - p.len())
}

// ---------------------------------------------------------------- replacing

/// `s` with every occurrence of the non-empty `p` replaced by `r`, scanning from the left and
/// never overlapping (what `str::replace` gives).
pub open spec fn replace_all(s: Seq<char>, p: Seq<char>, r: Seq<char>) -> Seq<char>
    decreases s.len(),
{
    if s.len() == 0 || p.len() == 0 {
        s
    } else if occurs_at(s, p, 0) {
        r + replace_all(s.skip(p.len() as int), p, r)
    } else {
        seq![s[0]] + replace_all(s.drop_first(), p, r)
    }
}

/// Executable `replace_all`.
pub fn replace_text(s: &[char], p: &[char], r: &[char]) -> (out: Vec<char>)
    requires
        p@.len() > 0,
    ensures
        out@ == replace_all(s@, p@, r@),
{
    let n = s.len();
    let mut out: Vec<char> = Vec::new();
    let mut i: usize = 0;
    assert(s@.skip(0) =~= s@);
    while i < n
        invariant
            i <= n == s@.len(),
            p@.len() > 0,
            out@ + replace_all(s@.skip(i as int), p@, r@) == replace_all(s@, p@, r@),
        decreases n - i,
    {
        let ghost rest = s@.skip(i as int);
        if matches_at(s, p, i) {
            assert(rest.subrange(0, p@.len() as int) =~= s@.subrange(i as int, i + p@.len()));
            assert(rest.skip(p@.len() as int) =~= s@.skip(i + p@.len()));
            let ghost before = out@;
            push_all(&mut out, r);
            assert(out@ + replace_all(s@.skip(i + p@.len()), p@, r@) =~= before + (r@
                + replace_all(rest.skip(p@.len() as int), p@, r@)));
            i = i + p.len();
        } else {
            assert(!occurs_at(rest, p@, 0)) by {
                if occurs_at(rest, p@, 0) {
                    assert(rest.subrange(0, p@.len() as int) =~= s@.subrange(i as int, i + p@.len()));
                }
            }
            assert(rest.drop_first() =~= s@.skip(i + 1));
            let ghost before = out@;
            out.push(s[i]);
            assert(out@ + replace_all(s@.skip(i + 1), p@, r@) =~= before + (seq![rest[0]]
                + replace_all(rest.drop_first(), p@, r@)));
            i = i + 1;
        }
    }
    assert(s@.skip(n as int) =~= Seq::<char>::empty());
    assert(out@ + Seq::<char>::empty() =~= out@);
    out
}

} // verus!
