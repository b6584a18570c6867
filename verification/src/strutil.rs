//! Character-level text utilities on which the parsers of this crate rest.
use vstd::prelude::*;

verus! {

/// Whether `c` is a Unicode `White_Space` character (what `char::is_whitespace` tests).
pub open spec fn is_ws(c: char) -> bool {
    ||| c == '\t' || c == '\n' || c == '\u{0B}' || c == '\u{0C}' || c == '\r' || c == ' '
    ||| c == '\u{85}' || c == '\u{A0}' || c == '\u{1680}'
    ||| ('\u{2000}' <= c && c <= '\u{200A}')
    ||| c == '\u{2028}' || c == '\u{2029}' || c == '\u{202F}' || c == '\u{205F}' || c == '\u{3000}'
}

/// Executable whitespace test.
pub fn char_is_ws(c: char) -> (b: bool)
    ensures
        b == is_ws(c),
{
    c == '\t' || c == '\n' || c == '\u{0B}' || c == '\u{0C}' || c == '\r' || c == ' '
        || c == '\u{85}' || c == '\u{A0}' || c == '\u{1680}' || ('\u{2000}' <= c && c <= '\u{200A}')
        || c == '\u{2028}' || c == '\u{2029}' || c == '\u{202F}' || c == '\u{205F}' || c == '\u{3000}'
}

/// The characters of a string, in order.
pub fn chars_of(s: &str) -> (v: Vec<char>)
    ensures
        v@ == s@,
{
    let mut v: Vec<char> = Vec::new();
    for c in it: s.chars()
        invariant
            v@ == it.seq().take(it.index() as int),
    {
        v.push(c);
    }
    v
}

/// Builds a `String` from characters: `String`'s `FromIterator<char>` (std), whose result
/// holds exactly the given characters in order.
#[verifier::external_body]
pub(crate) fn string_of(v: &[char]) -> (s: String)
    ensures
        s@ == v@,
{
    v.iter().collect()
}

/// A copy of `v[lo..hi]`.
pub fn copy_range(v: &[char], lo: usize, hi: usize) -> (r: Vec<char>)
    requires
        lo <= hi <= v@.len(),
    ensures
        r@ == v@.subrange(lo as int, hi as int),
{
    let mut r: Vec<char> = Vec::new();
    let mut i = lo;
    while i < hi
        invariant
            lo <= i <= hi <= v@.len(),
            r@ == v@.subrange(lo as int, i as int),
        decreases hi - i,
    {
        r.push(v[i]);
        i = i + 1;
    }
    r
}

/// Appends `w` to `out`.
pub fn push_all(out: &mut Vec<char>, w: &[char])
    ensures
        final(out)@ == old(out)@ + w@,
{
    let mut i: usize = 0;
    while i < w.len()
        invariant
            i <= w@.len(),
            out@ == old(out)@ + w@.take(i as int),
        decreases w@.len() - i,
    {
        out.push(w[i]);
        i = i + 1;
        assert(w@.take(i as int) == w@.take((i - 1) as int).push(w@[i - 1]));
    }
    assert(w@.take(w@.len() as int) == w@);
}

/// Whether two character sequences are equal.
pub fn chars_eq(a: &[char], b: &[char]) -> (r: bool)
    ensures
        r == (a@ == b@),
{
    if a.len() != b.len() {
        return false;
    }
    let mut i: usize = 0;
    while i < a.len()
        invariant
            a@.len() == b@.len(),
            i <= a@.len(),
            forall|j: int| 0 <= j < i ==> a@[j] == b@[j],
        decreases a@.len() - i,
    {
        if a[i] != b[i] {
            return false;
        }
        i = i + 1;
    }
    assert(a@ =~= b@);
    true
}

/// Whether `s` begins with `p`.
pub open spec fn has_prefix(s: Seq<char>, p: Seq<char>) -> bool {
    p.len() <= s.len() && s.take(p.len() as int) == p
}

/// Executable prefix test.
pub fn starts_with(s: &[char], p: &[char]) -> (r: bool)
    ensures
        r == has_prefix(s@, p@),
{
    if p.len() > s.len() {
        return false;
    }
    let mut i: usize = 0;
    while i < p.len()
        invariant
            p@.len() <= s@.len(),
            i <= p@.len(),
            forall|j: int| 0 <= j < i ==> s@[j] == p@[j],
        decreases p@.len() - i,
    {
        if s[i] != p[i] {
            assert(s@.take(p@.len() as int)[i as int] != p@[i as int]);
            return false;
        }
        i = i + 1;
    }
    assert(s@.take(p@.len() as int) =~= p@);
    true
}

// ---------------------------------------------------------------- trimming

/// `s` without its leading whitespace.
pub open spec fn trim_start(s: Seq<char>) -> Seq<char>
    decreases s.len(),
{
    if s.len() > 0 && is_ws(s[0]) {
        trim_start(s.drop_first())
    } else {
        s
    }
}

/// `s` without its trailing whitespace.
pub open spec fn trim_end(s: Seq<char>) -> Seq<char>
    decreases s.len(),
{
    if s.len() > 0 && is_ws(s.last()) {
        trim_end(s.drop_last())
    } else {
        s
    }
}

/// `s` without leading and trailing whitespace (what `str::trim` gives).
pub open spec fn trim(s: Seq<char>) -> Seq<char> {
    trim_end(trim_start(s))
}

/// `trim_start` leaves nothing or a non-whitespace first character.
proof fn lemma_trim_start_shape(s: Seq<char>)
    ensures
        trim_start(s).len() == 0 || !is_ws(trim_start(s)[0]),
    decreases s.len(),
{
    if s.len() > 0 && is_ws(s[0]) {
        lemma_trim_start_shape(s.drop_first());
    }
}

/// `trim_end` keeps a prefix of `s`, and leaves nothing or a non-whitespace last character.
proof fn lemma_trim_end_shape(s: Seq<char>)
    ensures
        trim_end(s).len() <= s.len(),
        trim_end(s) == s.take(trim_end(s).len() as int),
        trim_end(s).len() == 0 || !is_ws(trim_end(s).last()),
    decreases s.len(),
{
    if s.len() > 0 && is_ws(s.last()) {
        lemma_trim_end_shape(s.drop_last());
        assert(s.drop_last().take(trim_end(s).len() as int) =~= s.take(trim_end(s).len() as int));
    } else {
        assert(s.take(s.len() as int) =~= s);
    }
}

/// Trimming twice is trimming once.
pub proof fn lemma_trim_idempotent(s: Seq<char>)
    ensures
        trim(trim(s)) == trim(s),
{
    let a = trim_start(s);
    let t = trim_end(a);
    lemma_trim_start_shape(s);
    lemma_trim_end_shape(a);
    if t.len() > 0 {
        assert(t[0] == a[0]);
    }
    assert(trim_start(t) == t);
    assert(trim_end(t) == t);
}

/// Executable `trim`.
pub fn trim_chars(s: &[char]) -> (r: Vec<char>)
    ensures
        r@ == trim(s@),
{
    let n = s.len();
    let mut lo: usize = 0;
    assert(s@.subrange(0, n as int) =~= s@);
    while lo < n && char_is_ws(s[lo])
        invariant
            lo <= n == s@.len(),
            trim_start(s@) == trim_start(s@.subrange(lo as int, n as int)),
        decreases n - lo,
    {
        assert(s@.subrange(lo as int, n as int).drop_first() =~= s@.subrange(lo + 1, n as int));
        lo = lo + 1;
    }
    let ghost t = s@.subrange(lo as int, n as int);
    assert(trim_start(s@) == t);
    let mut hi: usize = n;
    while hi > lo && char_is_ws(s[hi - 1])
        invariant
            lo <= hi <= n == s@.len(),
            t == s@.subrange(lo as int, n as int),
            trim_end(t) == trim_end(s@.subrange(lo as int, hi as int)),
        decreases hi - lo,
    {
        assert(s@.subrange(lo as int, hi as int).drop_last() =~= s@.subrange(lo as int, hi - 1));
        hi = hi - 1;
    }
    copy_range(s, lo, hi)
}


// ---------------------------------------------------------------- searching

/// Index of the first `c` in `s`, or `-1` when `s` holds no `c`.
pub open spec fn index_of(s: Seq<char>, c: char) -> int
    decreases s.len(),
{
    if s.len() == 0 {
        -1
    } else if s[0] == c {
        0
    } else {
        let r = index_of(s.drop_first(), c);
        if r < 0 {
            -1
        } else {
            r + 1
        }
    }
}

/// What `index_of` means: the first position of `c`, or `-1` for none.
pub proof fn lemma_index_of(s: Seq<char>, c: char)
    ensures
        -1 <= index_of(s, c) < s.len(),
        index_of(s, c) >= 0 ==> s[index_of(s, c)] == c,
        forall|j: int| 0 <= j < s.len() && (index_of(s, c) < 0 || j < index_of(s, c)) ==> s[j] != c,
    decreases s.len(),
{
    if s.len() > 0 && s[0] != c {
        lemma_index_of(s.drop_first(), c);
        assert forall|j: int| 0 <= j < s.len() && (index_of(s, c) < 0 || j < index_of(s, c)) implies s[j] != c by {
            if j > 0 {
                assert(s[j] == s.drop_first()[j - 1]);
            }
        }
    }
}

/// The characterisation of `index_of` by its properties.
pub proof fn lemma_index_of_is(s: Seq<char>, c: char, k: int)
    requires
        -1 <= k < s.len(),
        k >= 0 ==> s[k] == c,
        forall|j: int| 0 <= j < s.len() && (k < 0 || j < k) ==> s[j] != c,
    ensures
        index_of(s, c) == k,
{
    lemma_index_of(s, c);
    let r = index_of(s, c);
    if r >= 0 && k >= 0 {
        if r < k {
            assert(s[r] != c);
        }
        if k < r {
            assert(s[k] != c);
        }
    } else if r >= 0 {
        assert(s[r] != c);
    } else if k >= 0 {
        assert(s[k] != c);
    }
}

/// Executable `index_of` from position `from` on: the first `c` at or after `from`.
pub fn find_char_from(s: &[char], c: char, from: usize) -> (r: usize)
    requires
        from <= s@.len(),
    ensures
        from <= r <= s@.len(),
        r < s@.len() ==> s@[r as int] == c,
        forall|j: int| from <= j < r ==> s@[j] != c,
{
    let mut i = from;
    while i < s.len()
        invariant
            from <= i <= s@.len(),
            forall|j: int| from <= j < i ==> s@[j] != c,
        decreases s@.len() - i,
    {
        if s[i] == c {
            return i;
        }
        i = i + 1;
    }
    i
}

/// The text after the last `c` in `s`; all of `s` when it holds no `c`
/// (the first item that `str::rsplit(c)` yields).
pub open spec fn after_last(s: Seq<char>, c: char) -> Seq<char>
    decreases s.len(),
{
    if s.len() == 0 {
        s
    } else if s.last() == c {
        Seq::empty()
    } else {
        after_last(s.drop_last(), c).push(s.last())
    }
}

/// Executable `after_last`.
pub fn after_last_char(s: &[char], c: char) -> (r: Vec<char>)
    ensures
        r@ == after_last(s@, c),
{
    let n = s.len();
    let mut i = n;
    assert(s@.take(n as int) =~= s@);
    assert(s@.subrange(n as int, n as int) =~= Seq::<char>::empty());
    assert(after_last(s@, c) =~= after_last(s@.take(n as int), c) + s@.subrange(n as int, n as int));
    while i > 0 && s[i - 1] != c
        invariant
            i <= n == s@.len(),
            after_last(s@, c) == after_last(s@.take(i as int), c) + s@.subrange(i as int, n as int),
        decreases i,
    {
        let ghost t = s@.take(i as int);
        assert(t.drop_last() =~= s@.take(i - 1));
        assert(s@.subrange(i - 1, n as int) =~= seq![t.last()] + s@.subrange(i as int, n as int));
        assert(after_last(t, c) == after_last(t.drop_last(), c).push(t.last()));
        assert(after_last(s@.take(i - 1), c) + s@.subrange(i - 1, n as int) =~= after_last(t.drop_last(), c).push(t.last()) + s@.subrange(i as int, n as int));
        i = i - 1;
    }
    assert(s@.take(n as int) =~= s@);
    assert(s@.subrange(n as int, n as int) =~= Seq::<char>::empty());
    if i > 0 {
        assert(after_last(s@.take(i as int), c) =~= Seq::<char>::empty());
    } else {
        assert(after_last(s@.take(0), c) =~= Seq::<char>::empty());
    }
    copy_range(s, i, n)
}

// ---------------------------------------------------------------- splitting

/// The pieces of `s` between occurrences of `c`, at most `n` of them, the last holding the
/// rest of `s` (what `str::splitn(n, c)` yields, for `n >= 1`).
pub open spec fn splitn(s: Seq<char>, n: nat, c: char) -> Seq<Seq<char>>
    decreases n,
{
    if n <= 1 {
        seq![s]
    } else {
        let k = index_of(s, c);
        if k < 0 {
            seq![s]
        } else {
            seq![s.take(k)] + splitn(s.skip(k + 1), (n - 1) as nat, c)
        }
    }
}

/// `s` with one trailing `'\r'` removed, if there is one.
pub open spec fn strip_cr(s: Seq<char>) -> Seq<char> {
    if s.len() > 0 && s.last() == '\r' {
        s.drop_last()
    } else {
        s
    }
}

/// The lines of `s` (what `str::lines` yields): pieces between `'\n'`, each without a
/// `'\r'` right before its `'\n'`, and no empty piece after a final `'\n'`.
pub open spec fn lines(s: Seq<char>) -> Seq<Seq<char>>
    decreases s.len(),
{
    if s.len() == 0 {
        Seq::empty()
    } else {
        let k = index_of(s, '\n');
        if k < 0 {
            seq![s]
        } else {
            proof {
                lemma_index_of(s, '\n');
            }
            seq![strip_cr(s.take(k))] + lines(s.skip(k + 1))
        }
    }
}

/// Executable `lines`.
pub fn split_lines(s: &[char]) -> (r: Vec<Vec<char>>)
    ensures
        r@.len() == lines(s@).len(),
        forall|i: int| 0 <= i < r@.len() ==> #[trigger] r@[i]@ == lines(s@)[i],
{
    let n = s.len();
    let mut out: Vec<Vec<char>> = Vec::new();
    let mut start: usize = 0;
    let ghost acc: Seq<Seq<char>> = Seq::empty();
    assert(s@.skip(0) =~= s@);
    while start < n
        invariant
            start <= n == s@.len(),
            out@.len() == acc.len(),
            forall|i: int| 0 <= i < out@.len() ==> #[trigger] out@[i]@ == acc[i],
            acc + lines(s@.skip(start as int)) == lines(s@),
        decreases n - start,
    {
        let e = find_char_from(s, '\n', start);
        let ghost rest = s@.skip(start as int);
        proof {
            if e < n {
                lemma_index_of_is(rest, '\n', e - start);
            } else {
                lemma_index_of_is(rest, '\n', -1);
            }
        }
        if e < n {
            let mut line = copy_range(s, start, e);
            if line.len() > 0 && line[line.len() - 1] == '\r' {
                line.pop();
            }
            assert(rest.take(e - start) =~= s@.subrange(start as int, e as int));
            assert(rest.skip(e - start + 1) =~= s@.skip(e + 1));
            proof {
                acc = acc.push(line@);
            }
            out.push(line);
            assert(acc + lines(s@.skip(e + 1)) =~= (acc.drop_last() + seq![acc.last()]) + lines(s@.skip(e + 1)));
            start = e + 1;
        } else {
            let line = copy_range(s, start, n);
            assert(line@ =~= rest);
            proof {
                acc = acc.push(line@);
            }
            out.push(line);
            assert(lines(s@.skip(n as int)) =~= Seq::<Seq<char>>::empty());
            start = n;
        }
    }
    assert(s@.skip(n as int) =~= Seq::<char>::empty());
    assert(acc =~= lines(s@));
    out
}


/// Executable `splitn` (for `n >= 1`).
pub fn splitn_chars(s: &[char], n: usize, c: char) -> (r: Vec<Vec<char>>)
    requires
        n >= 1,
    ensures
        r@.len() == splitn(s@, n as nat, c).len(),
        forall|i: int| 0 <= i < r@.len() ==> #[trigger] r@[i]@ == splitn(s@, n as nat, c)[i],
{
    let len = s.len();
    let mut out: Vec<Vec<char>> = Vec::new();
    let ghost acc: Seq<Seq<char>> = Seq::empty();
    let mut start: usize = 0;
    let mut left: usize = n;
    assert(s@.skip(0) =~= s@);
    loop
        invariant
            start <= len == s@.len(),
            1 <= left <= n,
            out@.len() == acc.len(),
            forall|i: int| 0 <= i < out@.len() ==> #[trigger] out@[i]@ == acc[i],
            acc + splitn(s@.skip(start as int), left as nat, c) == splitn(s@, n as nat, c),
        decreases left,
    {
        let ghost rest = s@.skip(start as int);
        if left <= 1 {
            let piece = copy_range(s, start, len);
            assert(piece@ =~= rest);
            proof { acc = acc.push(piece@); }
            out.push(piece);
            assert(acc =~= splitn(s@, n as nat, c));
            return out;
        }
        let e = find_char_from(s, c, start);
        proof {
            if e < len {
                lemma_index_of_is(rest, c, e - start);
            } else {
                lemma_index_of_is(rest, c, -1);
            }
        }
        if e == len {
            let piece = copy_range(s, start, len);
            assert(piece@ =~= rest);
            proof { acc = acc.push(piece@); }
            out.push(piece);
            assert(acc =~= splitn(s@, n as nat, c));
            return out;
        }
        let piece = copy_range(s, start, e);
        assert(piece@ =~= rest.take(e - start));
        assert(rest.skip(e - start + 1) =~= s@.skip(e + 1));
        proof { acc = acc.push(piece@); }
        out.push(piece);
        assert(acc + splitn(s@.skip(e + 1), (left - 1) as nat, c) =~= (acc.drop_last() + seq![acc.last()]) + splitn(s@.skip(e + 1), (left - 1) as nat, c));
        start = e + 1;
        left = left - 1;
    }
}

/// Length of the run of non-whitespace characters at the start of `s`.
pub open spec fn word_len(s: Seq<char>) -> nat
    decreases s.len(),
{
    if s.len() == 0 || is_ws(s[0]) {
        0
    } else {
        1 + word_len(s.drop_first())
    }
}

/// The whitespace-separated words of `s` (what `str::split_whitespace` yields).
pub open spec fn split_ws(s: Seq<char>) -> Seq<Seq<char>>
    decreases s.len(),
{
    if s.len() == 0 {
        Seq::empty()
    } else if is_ws(s[0]) {
        split_ws(s.drop_first())
    } else {
        proof {
            lemma_word_len_bound(s);
        }
        seq![s.take(word_len(s) as int)] + split_ws(s.skip(word_len(s) as int))
    }
}

/// A word is never longer than its text, and is non-empty when the text starts with one.
pub proof fn lemma_word_len_bound(s: Seq<char>)
    ensures
        word_len(s) <= s.len(),
        s.len() > 0 && !is_ws(s[0]) ==> word_len(s) >= 1,
    decreases s.len(),
{
    if s.len() > 0 && !is_ws(s[0]) {
        lemma_word_len_bound(s.drop_first());
    }
}

/// `word_len` is the position of the first whitespace character.
pub proof fn lemma_word_len_is(s: Seq<char>, k: int)
    requires
        0 <= k <= s.len(),
        forall|m: int| 0 <= m < k ==> !is_ws(s[m]),
        k == s.len() || is_ws(s[k]),
    ensures
        word_len(s) == k,
    decreases k,
{
    if k > 0 {
        assert forall|m: int| 0 <= m < k - 1 implies !is_ws(s.drop_first()[m]) by {
            assert(s.drop_first()[m] == s[m + 1]);
        }
        if k < s.len() {
            assert(s.drop_first()[k - 1] == s[k]);
        }
        lemma_word_len_is(s.drop_first(), k - 1);
    }
}

/// Executable `split_ws`.
pub fn split_words(s: &[char]) -> (r: Vec<Vec<char>>)
    ensures
        r@.len() == split_ws(s@).len(),
        forall|i: int| 0 <= i < r@.len() ==> #[trigger] r@[i]@ == split_ws(s@)[i],
{
    let n = s.len();
    let mut out: Vec<Vec<char>> = Vec::new();
    let ghost acc: Seq<Seq<char>> = Seq::empty();
    let mut i: usize = 0;
    assert(s@.skip(0) =~= s@);
    while i < n
        invariant
            i <= n == s@.len(),
            out@.len() == acc.len(),
            forall|k: int| 0 <= k < out@.len() ==> #[trigger] out@[k]@ == acc[k],
            acc + split_ws(s@.skip(i as int)) == split_ws(s@),
        decreases n - i,
    {
        let ghost rest = s@.skip(i as int);
        if char_is_ws(s[i]) {
            assert(rest.drop_first() =~= s@.skip(i + 1));
            i = i + 1;
        } else {
            let mut j = i + 1;
            while j < n && !char_is_ws(s[j])
                invariant
                    i < j <= n == s@.len(),
                    forall|m: int| i <= m < j ==> !is_ws(s@[m]),
                decreases n - j,
            {
                j = j + 1;
            }
            proof {
                lemma_word_len_is(rest, j - i);
            }
            let w = copy_range(s, i, j);
            assert(w@ =~= rest.take(j - i));
            assert(rest.skip(j - i) =~= s@.skip(j as int));
            proof { acc = acc.push(w@); }
            out.push(w);
            assert(acc + split_ws(s@.skip(j as int)) =~= (acc.drop_last() + seq![acc.last()]) + split_ws(s@.skip(j as int)));
            i = j;
        }
    }
    assert(s@.skip(n as int) =~= Seq::<char>::empty());
    assert(acc =~= split_ws(s@));
    out
}

// ---------------------------------------------------------------- numbers

/// Whether `c` is an ASCII decimal digit.
pub open spec fn is_digit(c: char) -> bool {
    '0' <= c && c <= '9'
}

/// The value of the digit `c`.
pub open spec fn digit_value(c: char) -> int {
    c as int - '0' as int
}

/// Whether `s` consists of ASCII decimal digits only.
pub open spec fn all_digits(s: Seq<char>) -> bool {
    forall|i: int| 0 <= i < s.len() ==> is_digit(#[trigger] s[i])
}

/// The value of the decimal numeral `s`.
pub open spec fn decimal_value(s: Seq<char>) -> nat
    decreases s.len(),
{
    if s.len() == 0 {
        0
    } else {
        (decimal_value(s.drop_last()) * 10 + digit_value(s.last())) as nat
    }
}

/// `s` without one leading `'+'`, if it has one.
pub open spec fn strip_plus(s: Seq<char>) -> Seq<char> {
    if s.len() > 0 && s[0] == '+' {
        s.drop_first()
    } else {
        s
    }
}

/// What `s.parse::<u32>()` gives, as an `Option`: an optional `'+'`, then one or more
/// decimal digits whose value fits in `u32`.
pub open spec fn parse_u32(s: Seq<char>) -> Option<u32> {
    let d = strip_plus(s);
    if d.len() > 0 && all_digits(d) && decimal_value(d) <= u32::MAX {
        Some(decimal_value(d) as u32)
    } else {
        None
    }
}

/// What `s.parse::<u64>()` gives, as an `Option`: an optional `'+'`, then one or more
/// decimal digits whose value fits in `u64`.
pub open spec fn parse_u64(s: Seq<char>) -> Option<u64> {
    let d = strip_plus(s);
    if d.len() > 0 && all_digits(d) && decimal_value(d) <= u64::MAX {
        Some(decimal_value(d) as u64)
    } else {
        None
    }
}

/// What `s.parse::<i64>()` gives, as an `Option`: an optional sign, then one or more
/// decimal digits whose signed value fits in `i64`.
pub open spec fn parse_i64(s: Seq<char>) -> Option<i64> {
    if s.len() > 0 && s[0] == '-' {
        let d = s.drop_first();
        if d.len() > 0 && all_digits(d) && decimal_value(d) <= 0x8000_0000_0000_0000 {
            Some((0 - decimal_value(d)) as i64)
        } else {
            None
        }
    } else {
        let d = strip_plus(s);
        if d.len() > 0 && all_digits(d) && decimal_value(d) <= i64::MAX {
            Some(decimal_value(d) as i64)
        } else {
            None
        }
    }
}

/// A numeral is worth at least as much as any of its prefixes.
pub proof fn lemma_decimal_prefix(s: Seq<char>, k: int)
    requires
        0 <= k <= s.len(),
        all_digits(s),
    ensures
        decimal_value(s.take(k)) <= decimal_value(s),
    decreases s.len() - k,
{
    if k < s.len() {
        lemma_decimal_prefix(s, k + 1);
        assert(s.take(k + 1).drop_last() =~= s.take(k));
        assert(is_digit(s[k]));
    } else {
        assert(s.take(k) =~= s);
    }
}

/// Reads the digits `s[from..]` as a number no greater than `bound`; `None` when a character
/// is not a digit or the value exceeds `bound`.
fn read_digits(s: &[char], from: usize, bound: u64) -> (r: Option<u64>)
    requires
        from <= s@.len(),
        9 <= bound,
    ensures
        r matches Some(v) ==> all_digits(s@.skip(from as int)) && v == decimal_value(s@.skip(from as int)) && v <= bound,
        r is None ==> !all_digits(s@.skip(from as int)) || decimal_value(s@.skip(from as int)) > bound,
{
    let ghost d = s@.skip(from as int);
    let mut acc: u64 = 0;
    let mut i = from;
    assert(d.take(0) =~= Seq::<char>::empty());
    while i < s.len()
        invariant
            from <= i <= s@.len(),
            d == s@.skip(from as int),
            9 <= bound,
            all_digits(d.take(i - from)),
            acc == decimal_value(d.take(i - from)),
            acc <= bound,
        decreases s@.len() - i,
    {
        let ch = s[i];
        if !('0' <= ch && ch <= '9') {
            assert(d[i - from] == ch);
            return None;
        }
        let dv = (ch as u32 - '0' as u32) as u64;
        assert(d.take(i - from + 1).drop_last() =~= d.take(i - from));
        assert(d.take(i - from + 1).last() == ch);
        assert(all_digits(d.take(i - from + 1))) by {
            assert forall|m: int| 0 <= m < i - from + 1 implies is_digit(#[trigger] d.take(i - from + 1)[m]) by {
                if m < i - from {
                    assert(d.take(i - from + 1)[m] == d.take(i - from)[m]);
                }
            }
        }
        assert(dv <= 9);
        if acc > (bound - dv) / 10 {
            assert(acc * 10 + dv > bound) by (nonlinear_arith)
                requires acc > (bound - dv) / 10, dv <= 9, bound >= 9;
            proof {
                if all_digits(d) {
                    lemma_decimal_prefix(d, i - from + 1);
                }
            }
            return None;
        }
        assert(acc * 10 + dv <= bound) by (nonlinear_arith)
            requires acc <= (bound - dv) / 10, dv <= 9, bound >= 9;
        acc = acc * 10 + dv;
        i = i + 1;
    }
    assert(d.take(i - from) =~= d);
    Some(acc)
}

/// Executable `parse_u32`.
pub fn parse_u32_chars(s: &[char]) -> (r: Option<u32>)
    ensures
        r == parse_u32(s@),
{
    let from: usize = if s.len() > 0 && s[0] == '+' { 1 } else { 0 };
    assert(strip_plus(s@) =~= s@.skip(from as int));
    if from >= s.len() {
        return None;
    }
    match read_digits(s, from, 0xFFFF_FFFF) {
        Some(v) => Some(v as u32),
        None => None,
    }
}

/// Executable `parse_u64`.
pub fn parse_u64_chars(s: &[char]) -> (r: Option<u64>)
    ensures
        r == parse_u64(s@),
{
    let from: usize = if s.len() > 0 && s[0] == '+' { 1 } else { 0 };
    assert(strip_plus(s@) =~= s@.skip(from as int));
    if from >= s.len() {
        return None;
    }
    read_digits(s, from, 0xFFFF_FFFF_FFFF_FFFF)
}

/// Executable `parse_i64`.
pub fn parse_i64_chars(s: &[char]) -> (r: Option<i64>)
    ensures
        r == parse_i64(s@),
{
    if s.len() > 0 && s[0] == '-' {
        assert(s@.drop_first() =~= s@.skip(1));
        if s.len() == 1 {
            return None;
        }
        match read_digits(s, 1, 0x8000_0000_0000_0000) {
            Some(v) => {
                if v == 0x8000_0000_0000_0000 {
                    Some(i64::MIN)
                } else {
                    Some(0 - (v as i64))
                }
            },
            None => None,
        }
    } else {
        let from: usize = if s.len() > 0 && s[0] == '+' { 1 } else { 0 };
        assert(strip_plus(s@) =~= s@.skip(from as int));
        if from >= s.len() {
            return None;
        }
        match read_digits(s, from, 0x7FFF_FFFF_FFFF_FFFF) {
            Some(v) => Some(v as i64),
            None => None,
        }
    }
}

/// The character of the digit `d < 10`.
pub open spec fn digit_char(d: nat) -> char {
    ('0' as int + d) as char
}

/// The decimal numeral of `n`, without leading zeros.
pub open spec fn nat_text(n: nat) -> Seq<char>
    decreases n,
{
    if n < 10 {
        seq![digit_char(n)]
    } else {
        nat_text(n / 10).push(digit_char(n % 10))
    }
}

/// The decimal numeral of `i`, with a `'-'` in front when negative (what `{}` prints).
pub open spec fn int_text(i: int) -> Seq<char> {
    if i < 0 {
        seq!['-'] + nat_text((-i) as nat)
    } else {
        nat_text(i as nat)
    }
}

/// Appends the decimal numeral of `n` to `out`.
pub fn push_nat(out: &mut Vec<char>, n: u64)
    ensures
        final(out)@ == old(out)@ + nat_text(n as nat),
    decreases n,
{
    if n >= 10 {
        push_nat(out, n / 10);
    }
    let d = (n % 10) as u8;
    let ch = (48u8 + d) as char;
    assert(ch == digit_char((n % 10) as nat));
    out.push(ch);
}


/// Appends the decimal numeral of `i` to `out`, with `'-'` in front when negative.
pub fn push_int(out: &mut Vec<char>, i: i64)
    ensures
        final(out)@ == old(out)@ + int_text(i as int),
{
    if i < 0 {
        out.push('-');
        let m = (0 - (i as i128)) as u64;
        push_nat(out, m);
        assert(old(out)@.push('-') + nat_text(m as nat) =~= old(out)@ + (seq!['-'] + nat_text(m as nat)));
    } else {
        push_nat(out, i as u64);
    }
}

/// `n` zeros (none when `n <= 0`).
pub open spec fn zeros(n: int) -> Seq<char> {
    Seq::new(if n > 0 { n as nat } else { 0 }, |_i: int| '0')
}

/// The numeral of `n`, zero-padded on the left to width `w` (what `{:0w}` prints).
pub open spec fn padded_nat(n: nat, w: nat) -> Seq<char> {
    zeros(w - nat_text(n).len()) + nat_text(n)
}

/// The numeral of `i`, zero-padded after its sign to width `w` (what `{:0w}` prints).
pub open spec fn padded_int(i: int, w: nat) -> Seq<char> {
    if i < 0 {
        seq!['-'] + zeros(w - 1 - nat_text((-i) as nat).len()) + nat_text((-i) as nat)
    } else {
        padded_nat(i as nat, w)
    }
}

/// Appends `n` zeros.
fn push_zeros(out: &mut Vec<char>, n: usize)
    ensures
        final(out)@ == old(out)@ + zeros(n as int),
{
    let mut i: usize = 0;
    while i < n
        invariant
            i <= n,
            out@ == old(out)@ + zeros(i as int),
        decreases n - i,
    {
        out.push('0');
        i = i + 1;
        assert(zeros(i as int) =~= zeros(i - 1).push('0'));
    }
}

/// Appends `padded_nat(n, w)`.
pub fn push_padded_nat(out: &mut Vec<char>, n: u64, w: usize)
    ensures
        final(out)@ == old(out)@ + padded_nat(n as nat, w as nat),
{
    let mut digits: Vec<char> = Vec::new();
    push_nat(&mut digits, n);
    assert(digits@ =~= nat_text(n as nat));
    let pad = if digits.len() < w { w - digits.len() } else { 0 };
    assert(zeros(pad as int) =~= zeros(w - nat_text(n as nat).len()));
    push_zeros(out, pad);
    push_all(out, &digits);
    assert(out@ =~= old(out)@ + padded_nat(n as nat, w as nat));
}

/// Appends `padded_int(i, w)`.
pub fn push_padded_int(out: &mut Vec<char>, i: i64, w: usize)
    ensures
        final(out)@ == old(out)@ + padded_int(i as int, w as nat),
{
    if i < 0 {
        let m = (0 - (i as i128)) as u64;
        let mut digits: Vec<char> = Vec::new();
        push_nat(&mut digits, m);
        assert(digits@ =~= nat_text(m as nat));
        out.push('-');
        let pad = if w >= 1 && digits.len() < w - 1 { w - 1 - digits.len() } else { 0 };
        assert(zeros(pad as int) =~= zeros(w - 1 - nat_text(m as nat).len()));
        push_zeros(out, pad);
        push_all(out, &digits);
        assert(out@ =~= old(out)@ + padded_int(i as int, w as nat));
    } else {
        push_padded_nat(out, i as u64, w);
    }
}

/// `n` copies of `c` (none when `n <= 0`).
pub open spec fn fill(c: char, n: int) -> Seq<char> {
    Seq::new(if n > 0 { n as nat } else { 0 }, |_i: int| c)
}

/// `s` left-aligned in a field of width `w`, padded with `c` (what `{:c<w}` prints).
pub open spec fn align_left(s: Seq<char>, w: nat, c: char) -> Seq<char> {
    s + fill(c, w - s.len())
}

/// `s` right-aligned in a field of width `w`, padded with spaces (what `{:>w}` prints).
pub open spec fn align_right(s: Seq<char>, w: nat) -> Seq<char> {
    fill(' ', w - s.len()) + s
}

/// Appends `n` copies of `c`.
pub fn push_fill(out: &mut Vec<char>, c: char, n: usize)
    ensures
        final(out)@ == old(out)@ + fill(c, n as int),
{
    let mut i: usize = 0;
    while i < n
        invariant
            i <= n,
            out@ == old(out)@ + fill(c, i as int),
        decreases n - i,
    {
        out.push(c);
        i = i + 1;
        assert(fill(c, i as int) =~= fill(c, i - 1).push(c));
    }
}

/// Appends `align_left(s, w, c)`.
pub fn push_left(out: &mut Vec<char>, s: &[char], w: usize, c: char)
    ensures
        final(out)@ == old(out)@ + align_left(s@, w as nat, c),
{
    push_all(out, s);
    let pad = if s.len() < w { w - s.len() } else { 0 };
    assert(fill(c, pad as int) =~= fill(c, w - s@.len()));
    push_fill(out, c, pad);
    assert(out@ =~= old(out)@ + align_left(s@, w as nat, c));
}

/// Appends `align_right(s, w)`.
pub fn push_right(out: &mut Vec<char>, s: &[char], w: usize)
    ensures
        final(out)@ == old(out)@ + align_right(s@, w as nat),
{
    let pad = if s.len() < w { w - s.len() } else { 0 };
    assert(fill(' ', pad as int) =~= fill(' ', w - s@.len()));
    push_fill(out, ' ', pad);
    push_all(out, s);
    assert(out@ =~= old(out)@ + align_right(s@, w as nat));
}

/// Appends the characters of `s`.
pub fn push_str(out: &mut Vec<char>, s: &str)
    ensures
        final(out)@ == old(out)@ + s@,
{
    let v = chars_of(s);
    push_all(out, &v);
}

/// The decimal numeral of `n`, as characters.
pub fn nat_chars(n: u64) -> (r: Vec<char>)
    ensures
        r@ == nat_text(n as nat),
{
    let mut v: Vec<char> = Vec::new();
    push_nat(&mut v, n);
    assert(v@ =~= nat_text(n as nat));
    v
}

// ---------------------------------------------------------------- ordering

/// Lexicographic order on character sequences (the order of `str` and `String`).
pub open spec fn seq_lt(a: Seq<char>, b: Seq<char>) -> bool
    decreases a.len(),
{
    if a.len() == 0 {
        b.len() > 0
    } else if b.len() == 0 {
        false
    } else if a[0] != b[0] {
        a[0] < b[0]
    } else {
        seq_lt(a.drop_first(), b.drop_first())
    }
}

/// Executable `seq_lt`.
pub fn chars_lt(a: &[char], b: &[char]) -> (r: bool)
    ensures
        r == seq_lt(a@, b@),
{
    let mut i: usize = 0;
    assert(a@.skip(0) =~= a@);
    assert(b@.skip(0) =~= b@);
    while i < a.len() && i < b.len() && a[i] == b[i]
        invariant
            i <= a@.len(),
            i <= b@.len(),
            seq_lt(a@, b@) == seq_lt(a@.skip(i as int), b@.skip(i as int)),
        decreases a@.len() - i,
    {
        assert(a@.skip(i as int).drop_first() =~= a@.skip(i + 1));
        assert(b@.skip(i as int).drop_first() =~= b@.skip(i + 1));
        i = i + 1;
    }
    if i == a.len() {
        i < b.len()
    } else if i == b.len() {
        false
    } else {
        a[i] < b[i]
    }
}

/// `seq_lt` is irreflexive.
pub proof fn lemma_seq_lt_irreflexive(a: Seq<char>)
    ensures
        !seq_lt(a, a),
    decreases a.len(),
{
    if a.len() > 0 {
        lemma_seq_lt_irreflexive(a.drop_first());
    }
}

/// `seq_lt` is a strict total order: exactly one of `a < b`, `a == b`, `b < a` holds.
pub proof fn lemma_seq_lt_total(a: Seq<char>, b: Seq<char>)
    ensures
        a != b ==> (seq_lt(a, b) || seq_lt(b, a)),
        !(seq_lt(a, b) && seq_lt(b, a)),
    decreases a.len(),
{
    if a.len() > 0 && b.len() > 0 && a[0] == b[0] {
        lemma_seq_lt_total(a.drop_first(), b.drop_first());
        if a != b {
            assert(a.drop_first() != b.drop_first()) by {
                if a.drop_first() == b.drop_first() {
                    assert(a =~= seq![a[0]] + a.drop_first());
                    assert(b =~= seq![b[0]] + b.drop_first());
                }
            }
        }
    } else if a.len() == 0 && b.len() == 0 {
        assert(a =~= b);
    }
}

/// `seq_lt` is transitive.
pub proof fn lemma_seq_lt_transitive(a: Seq<char>, b: Seq<char>, c: Seq<char>)
    requires
        seq_lt(a, b),
        seq_lt(b, c),
    ensures
        seq_lt(a, c),
    decreases a.len(),
{
    if a.len() > 0 && b.len() > 0 && c.len() > 0 && a[0] == b[0] && b[0] == c[0] {
        lemma_seq_lt_transitive(a.drop_first(), b.drop_first(), c.drop_first());
    }
}

// ---------------------------------------------------------------- stripping runs

/// `s` without the leading characters equal to `c` (what `str::trim_start_matches(c)` gives).
pub open spec fn strip_leading(s: Seq<char>, c: char) -> Seq<char>
    decreases s.len(),
{
    if s.len() > 0 && s[0] == c {
        strip_leading(s.drop_first(), c)
    } else {
        s
    }
}

/// Executable `strip_leading`.
pub fn strip_leading_char(s: &[char], c: char) -> (r: Vec<char>)
    ensures
        r@ == strip_leading(s@, c),
{
    let n = s.len();
    let mut lo: usize = 0;
    assert(s@.subrange(0, n as int) =~= s@);
    while lo < n && s[lo] == c
        invariant
            lo <= n == s@.len(),
            strip_leading(s@, c) == strip_leading(s@.subrange(lo as int, n as int), c),
        decreases n - lo,
    {
        assert(s@.subrange(lo as int, n as int).drop_first() =~= s@.subrange(lo + 1, n as int));
        lo = lo + 1;
    }
    copy_range(s, lo, n)
}

/// Whether `c` is `'<'` or `'>'`.
pub open spec fn is_angle(c: char) -> bool {
    c == '<' || c == '>'
}

/// `s` without leading angle brackets.
pub open spec fn strip_angles_start(s: Seq<char>) -> Seq<char>
    decreases s.len(),
{
    if s.len() > 0 && is_angle(s[0]) {
        strip_angles_start(s.drop_first())
    } else {
        s
    }
}

/// `s` without trailing angle brackets.
pub open spec fn strip_angles_end(s: Seq<char>) -> Seq<char>
    decreases s.len(),
{
    if s.len() > 0 && is_angle(s.last()) {
        strip_angles_end(s.drop_last())
    } else {
        s
    }
}

/// `s` without angle brackets at either end (what `trim_matches` with `'<'`/`'>'` gives).
pub open spec fn strip_angles(s: Seq<char>) -> Seq<char> {
    strip_angles_end(strip_angles_start(s))
}

/// Executable `strip_angles`.
pub fn strip_angles_chars(s: &[char]) -> (r: Vec<char>)
    ensures
        r@ == strip_angles(s@),
{
    let n = s.len();
    let mut lo: usize = 0;
    assert(s@.subrange(0, n as int) =~= s@);
    while lo < n && (s[lo] == '<' || s[lo] == '>')
        invariant
            lo <= n == s@.len(),
            strip_angles_start(s@) == strip_angles_start(s@.subrange(lo as int, n as int)),
        decreases n - lo,
    {
        assert(s@.subrange(lo as int, n as int).drop_first() =~= s@.subrange(lo + 1, n as int));
        lo = lo + 1;
    }
    let ghost t = s@.subrange(lo as int, n as int);
    let mut hi: usize = n;
    while hi > lo && (s[hi - 1] == '<' || s[hi - 1] == '>')
        invariant
            lo <= hi <= n == s@.len(),
            t == s@.subrange(lo as int, n as int),
            strip_angles_end(t) == strip_angles_end(s@.subrange(lo as int, hi as int)),
        decreases hi - lo,
    {
        assert(s@.subrange(lo as int, hi as int).drop_last() =~= s@.subrange(lo as int, hi - 1));
        hi = hi - 1;
    }
    copy_range(s, lo, hi)
}

} // verus!
