//! Sequence helpers: keyed positions, and the stable sort used for rankings with what it keeps.
use vstd::prelude::*;
use crate::strutil::{lemma_seq_lt_total, seq_lt};

verus! {

/// The position of the first `x` in `s`, or `-1` when `s` holds none.
pub open spec fn pos_of<A>(s: Seq<A>, x: A) -> int
    decreases s.len(),
{
    if s.len() == 0 {
        -1
    } else if s[0] == x {
        0
    } else {
        let r = pos_of(s.drop_first(), x);
        if r < 0 {
            -1
        } else {
            r + 1
        }
    }
}

/// What `pos_of` means: the first position of `x`, or `-1` for none.
pub proof fn lemma_pos_of<A>(s: Seq<A>, x: A)
    ensures
        -1 <= pos_of(s, x) < s.len(),
        pos_of(s, x) >= 0 ==> s[pos_of(s, x)] == x,
        forall|j: int| 0 <= j < s.len() && (pos_of(s, x) < 0 || j < pos_of(s, x)) ==> s[j] != x,
        pos_of(s, x) < 0 <==> !s.contains(x),
    decreases s.len(),
{
    if s.len() > 0 && s[0] != x {
        lemma_pos_of(s.drop_first(), x);
        assert forall|j: int| 0 <= j < s.len() && (pos_of(s, x) < 0 || j < pos_of(s, x)) implies s[j] != x by {
            if j > 0 {
                assert(s[j] == s.drop_first()[j - 1]);
            }
        }
        if s.contains(x) {
            let j = choose|j: int| 0 <= j < s.len() && s[j] == x;
            assert(s.drop_first()[j - 1] == x);
        }
    } else if s.len() > 0 {
        assert(s.contains(x));
    }
}

/// `pos_of` is the position with the characterising properties.
pub proof fn lemma_pos_of_is<A>(s: Seq<A>, x: A, k: int)
    requires
        -1 <= k < s.len(),
        k >= 0 ==> s[k] == x,
        forall|j: int| 0 <= j < s.len() && (k < 0 || j < k) ==> s[j] != x,
    ensures
        pos_of(s, x) == k,
{
    lemma_pos_of(s, x);
    let r = pos_of(s, x);
    if r >= 0 && k >= 0 {
        if r < k {
            assert(s[r] != x);
        }
        if k < r {
            assert(s[k] != x);
        }
    } else if r >= 0 {
        assert(s[r] != x);
    } else if k >= 0 {
        assert(s[k] != x);
    }
}

/// Positions are kept by pushing another element.
pub proof fn lemma_pos_of_push<A>(s: Seq<A>, y: A, x: A)
    ensures
        pos_of(s.push(y), x) == if pos_of(s, x) >= 0 {
            pos_of(s, x)
        } else if y == x {
            s.len() as int
        } else {
            -1
        },
{
    lemma_pos_of(s, x);
    let t = s.push(y);
    let k = if pos_of(s, x) >= 0 {
        pos_of(s, x)
    } else if y == x {
        s.len() as int
    } else {
        -1
    };
    assert forall|j: int| 0 <= j < t.len() && (k < 0 || j < k) implies t[j] != x by {
        if j < s.len() {
            assert(t[j] == s[j]);
        }
    }
    lemma_pos_of_is(t, x, k);
}

/// Pushing an element that is not there keeps a sequence free of repeats.
pub proof fn lemma_push_new<A>(s: Seq<A>, x: A)
    requires
        s.no_duplicates(),
        !s.contains(x),
    ensures
        s.push(x).no_duplicates(),
{
    let t = s.push(x);
    assert forall|i: int, j: int| 0 <= i < t.len() && 0 <= j < t.len() && i != j implies t[i] != t[j] by {
        if i < s.len() && j < s.len() {
            assert(t[i] == s[i] && t[j] == s[j]);
        } else if i < s.len() {
            assert(t[i] == s[i]);
        } else if j < s.len() {
            assert(t[j] == s[j]);
        }
    }
}

/// Positions are kept by replacing an element with one equal to it.
pub proof fn lemma_pos_of_update_same<A>(s: Seq<A>, i: int, x: A)
    requires
        0 <= i < s.len(),
    ensures
        pos_of(s.update(i, s[i]), x) == pos_of(s, x),
{
    assert(s.update(i, s[i]) =~= s);
}

/// Whether `idx` maps each key of `ks` to its position, and nothing else: the index of a
/// vector whose keys are distinct.
pub open spec fn indexes(ks: Seq<Seq<char>>, idx: Map<Seq<char>, usize>) -> bool {
    &&& ks.no_duplicates()
    &&& forall|k: Seq<char>| #[trigger] idx.contains_key(k) ==> 0 <= idx[k] < ks.len() && ks[idx[k] as int] == k
    &&& forall|i: int| 0 <= i < ks.len() ==> #[trigger] idx.contains_key(ks[i])
}

/// What an index says of positions.
pub proof fn lemma_indexes_pos(ks: Seq<Seq<char>>, idx: Map<Seq<char>, usize>, k: Seq<char>)
    requires
        indexes(ks, idx),
    ensures
        idx.contains_key(k) ==> pos_of(ks, k) == idx[k] as int,
        !idx.contains_key(k) ==> pos_of(ks, k) == -1,
{
    if idx.contains_key(k) {
        let p = idx[k] as int;
        assert forall|j: int| 0 <= j < ks.len() && (p < 0 || j < p) implies ks[j] != k by {
            if ks[j] == k {
                assert(ks[j] == ks[p]);
            }
        }
        lemma_pos_of_is(ks, k, p);
    } else {
        assert forall|j: int| 0 <= j < ks.len() implies ks[j] != k by {
            assert(idx.contains_key(ks[j]));
        }
        lemma_pos_of_is(ks, k, -1);
    }
}

/// Adding a new key at the end keeps the index right.
pub proof fn lemma_indexes_push(ks: Seq<Seq<char>>, idx: Map<Seq<char>, usize>, k: Seq<char>)
    requires
        indexes(ks, idx),
        !idx.contains_key(k),
        ks.len() <= usize::MAX,
    ensures
        indexes(ks.push(k), idx.insert(k, ks.len() as usize)),
{
    let ks2 = ks.push(k);
    let idx2 = idx.insert(k, ks.len() as usize);
    lemma_indexes_pos(ks, idx, k);
    lemma_pos_of(ks, k);
    assert forall|i: int, j: int| 0 <= i < ks2.len() && 0 <= j < ks2.len() && i != j implies ks2[i] != ks2[j] by {
        if i < ks.len() && j < ks.len() {
        } else if i < ks.len() {
            assert(ks.contains(ks[i]));
        } else {
            assert(ks.contains(ks[j]));
        }
    }
    assert forall|q: Seq<char>| #[trigger] idx2.contains_key(q) implies 0 <= idx2[q] < ks2.len() && ks2[idx2[q] as int] == q by {
        if q != k {
            assert(idx.contains_key(q));
        }
    }
    assert forall|i: int| 0 <= i < ks2.len() implies #[trigger] idx2.contains_key(ks2[i]) by {
        if i < ks.len() {
            assert(idx.contains_key(ks[i]));
        }
    }
}

/// Values with an order in which a stable sort arranges them: `goes_before(a, b)` when `a`
/// must come before `b`; values where neither goes before the other keep their order.
pub trait Sortable: View + Sized {
    /// Whether a value with view `a` must come before one with view `b`.
    spec fn goes_before(a: Self::V, b: Self::V) -> bool;

    /// `goes_before` is a strict order: it never holds both ways round, and it is transitive.
    proof fn goes_before_strict(a: Self::V, b: Self::V, c: Self::V)
        ensures
            Self::goes_before(a, b) ==> !Self::goes_before(b, a),
            Self::goes_before(a, b) && Self::goes_before(b, c) ==> Self::goes_before(a, c),
    ;

    /// Executable `goes_before`.
    fn goes_before_exec(&self, other: &Self) -> (r: bool)
        ensures
            r == Self::goes_before(self@, other@),
    ;
}

/// `s` with `x` inserted before the first element that `x` goes before.
pub open spec fn insert_sorted<T: Sortable>(s: Seq<T::V>, x: T::V) -> Seq<T::V>
    decreases s.len(),
{
    if s.len() == 0 {
        seq![x]
    } else if !T::goes_before(x, s[0]) {
        seq![s[0]] + insert_sorted::<T>(s.drop_first(), x)
    } else {
        seq![x] + s
    }
}

/// The stable sort of `s`: insertion of each element in order, each placed after every
/// element it does not go before (what a stable `sort_by` gives).
pub open spec fn stable_sort<T: Sortable>(s: Seq<T::V>) -> Seq<T::V>
    decreases s.len(),
{
    if s.len() == 0 {
        s
    } else {
        insert_sorted::<T>(stable_sort::<T>(s.drop_last()), s.last())
    }
}

/// Inserting before the first element that `x` goes before is `insert_sorted`.
pub proof fn lemma_insert_sorted_at<T: Sortable>(s: Seq<T::V>, x: T::V, j: int)
    requires
        0 <= j <= s.len(),
        forall|i: int| 0 <= i < j ==> !T::goes_before(x, #[trigger] s[i]),
        j < s.len() ==> T::goes_before(x, s[j]),
    ensures
        insert_sorted::<T>(s, x) == s.insert(j, x),
    decreases j,
{
    if j == 0 {
        if s.len() > 0 {
            assert(seq![x] + s =~= s.insert(0, x));
        } else {
            assert(seq![x] =~= s.insert(0, x));
        }
    } else {
        let t = s.drop_first();
        assert forall|i: int| 0 <= i < j - 1 implies !T::goes_before(x, #[trigger] t[i]) by {
            assert(t[i] == s[i + 1]);
            assert(!T::goes_before(x, s[i + 1]));
        }
        if j - 1 < t.len() {
            assert(t[j - 1] == s[j]);
        }
        lemma_insert_sorted_at::<T>(t, x, j - 1);
        assert(!T::goes_before(x, s[0]));
        assert(seq![s[0]] + t.insert(j - 1, x) =~= s.insert(j, x));
    }
}

/// Whether `s` is in ranking order: no element goes before an earlier one.
pub open spec fn ranked<T: Sortable>(s: Seq<T::V>) -> bool {
    forall|i: int, j: int| 0 <= i < j < s.len() ==> !T::goes_before(#[trigger] s[j], #[trigger] s[i])
}

/// Inserting into a ranked sequence keeps it ranked.
proof fn lemma_insert_sorted_ranked<T: Sortable>(s: Seq<T::V>, x: T::V)
    requires
        ranked::<T>(s),
    ensures
        ranked::<T>(insert_sorted::<T>(s, x)),
{
    let p = insert_pos::<T>(s, x);
    lemma_insert_pos::<T>(s, x);
    lemma_insert_sorted_at::<T>(s, x, p);
    let t = s.insert(p, x);
    assert forall|i: int, j: int| 0 <= i < j < t.len() implies !T::goes_before(#[trigger] t[j], #[trigger] t[i]) by {
        if j < p {
            assert(t[i] == s[i] && t[j] == s[j]);
        } else if j == p {
            assert(t[i] == s[i]);
        } else {
            assert(t[j] == s[j - 1]);
            if i < p {
                assert(t[i] == s[i]);
            } else if i == p {
                T::goes_before_strict(x, s[p], x);
                T::goes_before_strict(s[j - 1], x, s[p]);
                if j - 1 > p {
                    assert(!T::goes_before(s[j - 1], s[p]));
                }
            } else {
                assert(t[i] == s[i - 1]);
            }
        }
    }
}

/// A stable sort is ranked.
pub proof fn lemma_stable_sort_ranked<T: Sortable>(s: Seq<T::V>)
    ensures
        ranked::<T>(stable_sort::<T>(s)),
    decreases s.len(),
{
    if s.len() > 0 {
        lemma_stable_sort_ranked::<T>(s.drop_last());
        lemma_insert_sorted_ranked::<T>(stable_sort::<T>(s.drop_last()), s.last());
    }
}

/// A stable sort holds the same elements, as often, as what it sorts.
pub proof fn lemma_stable_sort_permutes<T: Sortable>(s: Seq<T::V>)
    ensures
        stable_sort::<T>(s).to_multiset() == s.to_multiset(),
        stable_sort::<T>(s).len() == s.len(),
    decreases s.len(),
{
    broadcast use vstd::seq_lib::group_to_multiset_ensures;
    if s.len() > 0 {
        let rest = stable_sort::<T>(s.drop_last());
        lemma_stable_sort_permutes::<T>(s.drop_last());
        let p = insert_pos::<T>(rest, s.last());
        lemma_insert_pos::<T>(rest, s.last());
        lemma_insert_sorted_at::<T>(rest, s.last(), p);
        vstd::seq_lib::to_multiset_insert(rest, p, s.last());
        assert(s.drop_last().push(s.last()) =~= s);
    }
}

/// Sorting a sequence without repeated elements gives one without repeated elements.
pub proof fn lemma_stable_sort_no_duplicates<T: Sortable>(s: Seq<T::V>)
    requires
        s.no_duplicates(),
    ensures
        stable_sort::<T>(s).no_duplicates(),
    decreases s.len(),
{
    if s.len() > 0 {
        let init = s.drop_last();
        let x = s.last();
        assert(init.no_duplicates()) by {
            assert forall|i: int, j: int| 0 <= i < init.len() && 0 <= j < init.len() && i != j implies init[i] != init[j] by {
                assert(init[i] == s[i] && init[j] == s[j]);
            }
        }
        lemma_stable_sort_no_duplicates::<T>(init);
        let rest = stable_sort::<T>(init);
        assert(!init.contains(x)) by {
            if init.contains(x) {
                let k = choose|k: int| 0 <= k < init.len() && init[k] == x;
                assert(s[k] == s[s.len() - 1]);
            }
        }
        lemma_stable_sort_contains::<T>(init, x);
        let p = insert_pos::<T>(rest, x);
        lemma_insert_pos::<T>(rest, x);
        lemma_insert_sorted_at::<T>(rest, x, p);
        let t = rest.insert(p, x);
        assert forall|i: int, j: int| 0 <= i < t.len() && 0 <= j < t.len() && i != j implies t[i] != t[j] by {
            if i != p && j != p {
                let ri = if i < p { i } else { i - 1 };
                let rj = if j < p { j } else { j - 1 };
                assert(t[i] == rest[ri] && t[j] == rest[rj]);
            } else if i == p {
                let rj = if j < p { j } else { j - 1 };
                assert(t[j] == rest[rj]);
                assert(rest.contains(rest[rj]));
            } else {
                let ri = if i < p { i } else { i - 1 };
                assert(t[i] == rest[ri]);
                assert(rest.contains(rest[ri]));
            }
        }
    }
}

/// The weights `w` of the elements of `s`, summed.
pub open spec fn sum_by<A>(s: Seq<A>, w: spec_fn(A) -> nat) -> nat
    decreases s.len(),
{
    if s.len() == 0 {
        0
    } else {
        sum_by(s.drop_last(), w) + w(s.last())
    }
}

/// Sums over a concatenation add up.
pub proof fn lemma_sum_by_add<A>(a: Seq<A>, b: Seq<A>, w: spec_fn(A) -> nat)
    ensures
        sum_by(a + b, w) == sum_by(a, w) + sum_by(b, w),
    decreases b.len(),
{
    if b.len() == 0 {
        assert(a + b =~= a);
    } else {
        lemma_sum_by_add(a, b.drop_last(), w);
        assert((a + b).drop_last() =~= a + b.drop_last());
    }
}

/// Replacing one element changes the sum by the difference.
pub proof fn lemma_sum_by_update<A>(s: Seq<A>, k: int, x: A, w: spec_fn(A) -> nat)
    requires
        0 <= k < s.len(),
    ensures
        sum_by(s.update(k, x), w) + w(s[k]) == sum_by(s, w) + w(x),
    decreases s.len(),
{
    if k == s.len() - 1 {
        assert(s.update(k, x).drop_last() =~= s.drop_last());
    } else {
        lemma_sum_by_update(s.drop_last(), k, x, w);
        assert(s.update(k, x).drop_last() =~= s.drop_last().update(k, x));
    }
}

/// Summing mapped elements is summing the composed weight.
pub proof fn lemma_sum_by_map<A, B>(s: Seq<A>, f: spec_fn(A) -> B, w: spec_fn(B) -> nat, v: spec_fn(A) -> nat)
    requires
        forall|x: A| #[trigger] w(f(x)) == v(x),
    ensures
        sum_by(s.map_values(f), w) == sum_by(s, v),
    decreases s.len(),
{
    if s.len() > 0 {
        lemma_sum_by_map(s.drop_last(), f, w, v);
        assert(s.map_values(f).drop_last() =~= s.drop_last().map_values(f));
        assert(w(f(s.last())) == v(s.last()));
    }
}

/// Ranking keeps a key that no two elements share unshared.
pub proof fn lemma_stable_sort_keys_distinct<T: Sortable, K>(s: Seq<T::V>, key: spec_fn(T::V) -> K)
    requires
        s.map_values(key).no_duplicates(),
    ensures
        stable_sort::<T>(s).map_values(key).no_duplicates(),
        truncated(stable_sort::<T>(s), 15).map_values(key).no_duplicates(),
{
    let t = stable_sort::<T>(s);
    let ks = s.map_values(key);
    assert(s.no_duplicates()) by {
        assert forall|a: int, b: int| 0 <= a < s.len() && 0 <= b < s.len() && a != b implies s[a] != s[b] by {
            assert(ks[a] == key(s[a]) && ks[b] == key(s[b]));
        }
    }
    lemma_stable_sort_no_duplicates::<T>(s);
    let kt = t.map_values(key);
    assert forall|i: int, j: int| 0 <= i < kt.len() && 0 <= j < kt.len() && i != j implies kt[i] != kt[j] by {
        assert(t[i] != t[j]);
        assert(t.contains(t[i]) && t.contains(t[j]));
        lemma_stable_sort_contains::<T>(s, t[i]);
        lemma_stable_sort_contains::<T>(s, t[j]);
        let ki = choose|k: int| 0 <= k < s.len() && s[k] == t[i];
        let kj = choose|k: int| 0 <= k < s.len() && s[k] == t[j];
        assert(ki != kj);
        assert(ks[ki] == key(t[i]) && ks[kj] == key(t[j]));
    }
    let u = truncated(t, 15);
    let ku = u.map_values(key);
    assert forall|i: int, j: int| 0 <= i < ku.len() && 0 <= j < ku.len() && i != j implies ku[i] != ku[j] by {
        assert(u[i] == t[i] && u[j] == t[j]);
        assert(kt[i] == ku[i] && kt[j] == ku[j]);
    }
}

/// Ranking by a text key that no two elements share orders the keys strictly.
pub proof fn lemma_stable_sort_strict<T: Sortable>(s: Seq<T::V>, key: spec_fn(T::V) -> Seq<char>)
    requires
        s.map_values(key).no_duplicates(),
        forall|a: T::V, b: T::V| #[trigger] T::goes_before(a, b) <==> seq_lt(key(a), key(b)),
    ensures
        forall|i: int, j: int| 0 <= i < j < stable_sort::<T>(s).len()
            ==> seq_lt(key(#[trigger] stable_sort::<T>(s)[i]), key(#[trigger] stable_sort::<T>(s)[j])),
{
    let t = stable_sort::<T>(s);
    let ks = s.map_values(key);
    lemma_stable_sort_ranked::<T>(s);
    assert(s.no_duplicates()) by {
        assert forall|a: int, b: int| 0 <= a < s.len() && 0 <= b < s.len() && a != b implies s[a] != s[b] by {
            assert(ks[a] == key(s[a]) && ks[b] == key(s[b]));
        }
    }
    lemma_stable_sort_no_duplicates::<T>(s);
    assert forall|i: int, j: int| 0 <= i < j < t.len() implies seq_lt(key(#[trigger] t[i]), key(#[trigger] t[j])) by {
        assert(!T::goes_before(t[j], t[i]));
        assert(t[i] != t[j]);
        assert(t.contains(t[i]) && t.contains(t[j]));
        lemma_stable_sort_contains::<T>(s, t[i]);
        lemma_stable_sort_contains::<T>(s, t[j]);
        let ki = choose|k: int| 0 <= k < s.len() && s[k] == t[i];
        let kj = choose|k: int| 0 <= k < s.len() && s[k] == t[j];
        assert(ki != kj);
        assert(ks[ki] == key(t[i]) && ks[kj] == key(t[j]));
        lemma_seq_lt_total(key(t[i]), key(t[j]));
    }
}

/// Sorting keeps any sum over the elements.
pub proof fn lemma_stable_sort_sum<T: Sortable>(s: Seq<T::V>, w: spec_fn(T::V) -> nat)
    ensures
        sum_by(stable_sort::<T>(s), w) == sum_by(s, w),
    decreases s.len(),
{
    if s.len() > 0 {
        lemma_stable_sort_sum::<T>(s.drop_last(), w);
        let rest = stable_sort::<T>(s.drop_last());
        let x = s.last();
        let p = insert_pos::<T>(rest, x);
        lemma_insert_pos::<T>(rest, x);
        lemma_insert_sorted_at::<T>(rest, x, p);
        assert(rest.insert(p, x) =~= rest.take(p) + seq![x] + rest.skip(p));
        assert(rest =~= rest.take(p) + rest.skip(p));
        lemma_sum_by_add(rest.take(p) + seq![x], rest.skip(p), w);
        lemma_sum_by_add(rest.take(p), seq![x], w);
        lemma_sum_by_add(rest.take(p), rest.skip(p), w);
        assert(seq![x].drop_last() =~= Seq::<T::V>::empty());
        assert(sum_by(Seq::<T::V>::empty(), w) == 0);
        assert(seq![x].last() == x);
    }
}

/// Sorting keeps and brings no element: an element is in the sort exactly when it is in `s`.
pub proof fn lemma_stable_sort_contains<T: Sortable>(s: Seq<T::V>, x: T::V)
    ensures
        stable_sort::<T>(s).contains(x) <==> s.contains(x),
{
    broadcast use vstd::seq_lib::group_to_multiset_ensures;
    lemma_stable_sort_permutes::<T>(s);
    assert(stable_sort::<T>(s).to_multiset().count(x) == s.to_multiset().count(x));
}

/// The views of a sequence's elements.
pub open spec fn views<T: View>(v: Seq<T>) -> Seq<T::V> {
    v.map_values(|x: T| x@)
}

/// Sorts `v` stably.
pub fn stable_sort_vec<T: Sortable>(v: Vec<T>) -> (r: Vec<T>)
    ensures
        views(r@) == stable_sort::<T>(views(v@)),
{
    let ghost orig = views(v@);
    let n = v.len();
    let mut src = v;
    let mut rev: Vec<T> = Vec::new();
    while src.len() > 0
        invariant
            src@.len() + rev@.len() == n == orig.len(),
            forall|i: int| 0 <= i < src@.len() ==> #[trigger] src@[i]@ == orig[i],
            forall|i: int| 0 <= i < rev@.len() ==> #[trigger] rev@[i]@ == orig[n - 1 - i],
        decreases src@.len(),
    {
        let x = src.pop().unwrap();
        rev.push(x);
    }
    let mut out: Vec<T> = Vec::new();
    let mut k: usize = 0;
    assert(orig.take(0) =~= Seq::<T::V>::empty());
    assert(views(out@) =~= Seq::<T::V>::empty());
    while rev.len() > 0
        invariant
            k + rev@.len() == n == orig.len(),
            forall|i: int| 0 <= i < rev@.len() ==> #[trigger] rev@[i]@ == orig[n - 1 - i],
            views(out@) == stable_sort::<T>(orig.take(k as int)),
        decreases rev@.len(),
    {
        let x = rev.pop().unwrap();
        assert(x@ == orig[k as int]);
        let mut j: usize = 0;
        while j < out.len() && !x.goes_before_exec(&out[j])
            invariant
                j <= out@.len(),
                forall|i: int| 0 <= i < j ==> !T::goes_before(x@, #[trigger] out@[i]@),
            decreases out@.len() - j,
        {
            j = j + 1;
        }
        let ghost before = views(out@);
        proof {
            assert forall|i: int| 0 <= i < j implies !T::goes_before(x@, #[trigger] before[i]) by {
                assert(before[i] == out@[i]@);
            }
            if j < out@.len() {
                assert(before[j as int] == out@[j as int]@);
            }
            lemma_insert_sorted_at::<T>(before, x@, j as int);
        }
        out.insert(j, x);
        assert(views(out@) =~= before.insert(j as int, orig[k as int]));
        assert(orig.take(k + 1).drop_last() =~= orig.take(k as int));
        k = k + 1;
    }
    assert(orig.take(n as int) =~= orig);
    out
}


/// `s` cut to at most `n` elements.
pub open spec fn truncated<A>(s: Seq<A>, n: nat) -> Seq<A> {
    if s.len() > n {
        s.take(n as int)
    } else {
        s
    }
}

/// Where `insert_sorted` puts `x`: before the first element that `x` goes before.
pub open spec fn insert_pos<T: Sortable>(s: Seq<T::V>, x: T::V) -> int
    decreases s.len(),
{
    if s.len() == 0 || T::goes_before(x, s[0]) {
        0
    } else {
        1 + insert_pos::<T>(s.drop_first(), x)
    }
}

/// What `insert_pos` means.
pub proof fn lemma_insert_pos<T: Sortable>(s: Seq<T::V>, x: T::V)
    ensures
        0 <= insert_pos::<T>(s, x) <= s.len(),
        forall|i: int| 0 <= i < insert_pos::<T>(s, x) ==> !T::goes_before(x, #[trigger] s[i]),
        insert_pos::<T>(s, x) < s.len() ==> T::goes_before(x, s[insert_pos::<T>(s, x)]),
    decreases s.len(),
{
    if s.len() > 0 && !T::goes_before(x, s[0]) {
        lemma_insert_pos::<T>(s.drop_first(), x);
        assert forall|i: int| 0 <= i < insert_pos::<T>(s, x) implies !T::goes_before(x, #[trigger] s[i]) by {
            if i > 0 {
                assert(s[i] == s.drop_first()[i - 1]);
            }
        }
        if insert_pos::<T>(s, x) < s.len() {
            assert(s[insert_pos::<T>(s, x)] == s.drop_first()[insert_pos::<T>(s, x) - 1]);
        }
    }
}

/// Keeping only the first `k` elements before or after inserting gives the same first `k`.
pub proof fn lemma_insert_sorted_truncated<T: Sortable>(s: Seq<T::V>, x: T::V, k: nat)
    ensures
        truncated(insert_sorted::<T>(truncated(s, k), x), k) == truncated(insert_sorted::<T>(s, x), k),
{
    let p = insert_pos::<T>(s, x);
    lemma_insert_pos::<T>(s, x);
    lemma_insert_sorted_at::<T>(s, x, p);
    if s.len() > k {
        let t = s.take(k as int);
        let q = if p < k { p } else { k as int };
        assert forall|i: int| 0 <= i < q implies !T::goes_before(x, #[trigger] t[i]) by {
            assert(t[i] == s[i]);
        }
        if q < t.len() {
            assert(t[q] == s[q]);
        }
        lemma_insert_sorted_at::<T>(t, x, q);
        assert(truncated(t.insert(q, x), k) =~= truncated(s.insert(p, x), k));
    }
}

/// The first `k` of the stable sort of `v`.
pub fn top_k_vec<T: Sortable>(v: Vec<T>, k: usize) -> (r: Vec<T>)
    ensures
        views(r@) == truncated(stable_sort::<T>(views(v@)), k as nat),
{
    let ghost orig = views(v@);
    let n = v.len();
    let mut src = v;
    let mut rev: Vec<T> = Vec::new();
    while src.len() > 0
        invariant
            src@.len() + rev@.len() == n == orig.len(),
            forall|i: int| 0 <= i < src@.len() ==> #[trigger] src@[i]@ == orig[i],
            forall|i: int| 0 <= i < rev@.len() ==> #[trigger] rev@[i]@ == orig[n - 1 - i],
        decreases src@.len(),
    {
        let x = src.pop().unwrap();
        rev.push(x);
    }
    let mut out: Vec<T> = Vec::new();
    let mut i: usize = 0;
    assert(orig.take(0) =~= Seq::<T::V>::empty());
    assert(views(out@) =~= Seq::<T::V>::empty());
    while rev.len() > 0
        invariant
            i + rev@.len() == n == orig.len(),
            forall|j: int| 0 <= j < rev@.len() ==> #[trigger] rev@[j]@ == orig[n - 1 - j],
            views(out@) == truncated(stable_sort::<T>(orig.take(i as int)), k as nat),
        decreases rev@.len(),
    {
        let x = rev.pop().unwrap();
        assert(x@ == orig[i as int]);
        let mut j: usize = 0;
        while j < out.len() && !x.goes_before_exec(&out[j])
            invariant
                j <= out@.len(),
                forall|m: int| 0 <= m < j ==> !T::goes_before(x@, #[trigger] out@[m]@),
            decreases out@.len() - j,
        {
            j = j + 1;
        }
        let ghost before = views(out@);
        let ghost full = stable_sort::<T>(orig.take(i as int));
        proof {
            assert forall|m: int| 0 <= m < j implies !T::goes_before(x@, #[trigger] before[m]) by {
                assert(before[m] == out@[m]@);
            }
            if j < out@.len() {
                assert(before[j as int] == out@[j as int]@);
            }
            lemma_insert_sorted_at::<T>(before, x@, j as int);
            lemma_insert_sorted_truncated::<T>(full, x@, k as nat);
            assert(orig.take(i + 1).drop_last() =~= orig.take(i as int));
        }
        out.insert(j, x);
        out.truncate(k);
        assert(views(out@) =~= truncated(before.insert(j as int, orig[i as int]), k as nat));
        i = i + 1;
    }
    assert(orig.take(n as int) =~= orig);
    out
}

} // verus!
