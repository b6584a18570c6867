//! Activity over time: commits grouped by ISO week or by month.
use vstd::prelude::*;
use crate::analysis::{Commit, CommitView, commit_views};
use crate::dates::{date_parts, utc_date_parts};
use crate::seqs::{lemma_pos_of, lemma_pos_of_is, lemma_pos_of_push, lemma_push_new, pos_of, stable_sort, stable_sort_vec, views, Sortable};
use crate::strutil::{chars_lt, chars_of, lemma_seq_lt_total, lemma_seq_lt_transitive, padded_int, padded_nat, parse_i64, parse_i64_chars, push_padded_int, push_padded_nat, seq_lt, string_of};

verus! {

/// Represents a period in the timeline (e.g., "2023-W01" or "2023-01").
#[derive(Debug, Clone)]
pub struct TimelinePeriod {
    pub period_name: String,
    pub commits: u32,
    pub insertions: u32,
    pub deletions: u32,
}

/// The content of a `TimelinePeriod`.
pub struct PeriodView {
    pub period_name: Seq<char>,
    pub commits: nat,
    pub insertions: nat,
    pub deletions: nat,
}

impl View for TimelinePeriod {
    type V = PeriodView;

    open spec fn view(&self) -> PeriodView {
        PeriodView {
            period_name: self.period_name@,
            commits: self.commits as nat,
            insertions: self.insertions as nat,
            deletions: self.deletions as nat,
        }
    }
}

impl Sortable for TimelinePeriod {
    /// Periods in the order of their names.
    open spec fn goes_before(a: PeriodView, b: PeriodView) -> bool {
        seq_lt(a.period_name, b.period_name)
    }

    proof fn goes_before_strict(a: PeriodView, b: PeriodView, c: PeriodView) {
        lemma_seq_lt_total(a.period_name, b.period_name);
        if seq_lt(a.period_name, b.period_name) && seq_lt(b.period_name, c.period_name) {
            lemma_seq_lt_transitive(a.period_name, b.period_name, c.period_name);
        }
    }

    fn goes_before_exec(&self, other: &Self) -> (r: bool) {
        chars_lt(&chars_of(self.period_name.as_str()), &chars_of(other.period_name.as_str()))
    }
}

/// The name of the period of calendar parts `(year, month, ISO week year, ISO week)`:
/// `YYYY-Www` by ISO week (with the year the week belongs to) when `use_weeks`, `YYYY-MM`
/// by calendar month otherwise (numbers zero-padded).
pub open spec fn period_key(p: (i32, u32, i32, u32), use_weeks: bool) -> Seq<char> {
    if use_weeks {
        padded_int(p.2 as int, 4) + seq!['-', 'W'] + padded_nat(p.3 as nat, 2)
    } else {
        padded_int(p.0 as int, 4) + seq!['-'] + padded_nat(p.1 as nat, 2)
    }
}

pub open spec fn period_names(ps: Seq<PeriodView>) -> Seq<Seq<char>> {
    ps.map_values(|p: PeriodView| p.period_name)
}

/// The entry of period `key`, or a fresh one.
pub open spec fn period_entry(ps: Seq<PeriodView>, key: Seq<char>) -> PeriodView {
    let k = pos_of(period_names(ps), key);
    if k >= 0 {
        ps[k]
    } else {
        PeriodView { period_name: key, commits: 0, insertions: 0, deletions: 0 }
    }
}

/// The periods (in the order first seen) with commit `c` counted in: commits whose date is
/// not a timestamp are skipped.
pub open spec fn period_step(ps: Seq<PeriodView>, c: CommitView, use_weeks: bool) -> Seq<PeriodView> {
    match parse_i64(c.date) {
        Some(ts) => match utc_date_parts(ts) {
            Some(p) => {
                let key = period_key(p, use_weeks);
                let k = pos_of(period_names(ps), key);
                let e = period_entry(ps, key);
                let e2 = PeriodView {
                    period_name: e.period_name,
                    commits: e.commits + 1,
                    insertions: e.insertions + c.insertions,
                    deletions: e.deletions + c.deletions,
                };
                if k >= 0 {
                    ps.update(k, e2)
                } else {
                    ps.push(e2)
                }
            },
            None => ps,
        },
        None => ps,
    }
}

/// Whether `period_step` is defined (a timestamp must be representable) and stays within `u32`.
pub open spec fn period_step_ok(ps: Seq<PeriodView>, c: CommitView, use_weeks: bool) -> bool {
    match parse_i64(c.date) {
        Some(ts) => match utc_date_parts(ts) {
            Some(p) => {
                let e = period_entry(ps, period_key(p, use_weeks));
                &&& e.commits + 1 <= u32::MAX
                &&& e.insertions + c.insertions <= u32::MAX
                &&& e.deletions + c.deletions <= u32::MAX
            },
            None => false,
        },
        None => true,
    }
}

/// The periods of `cs`, in the order first seen.
pub open spec fn periods_of(cs: Seq<CommitView>, use_weeks: bool) -> Seq<PeriodView>
    decreases cs.len(),
{
    if cs.len() == 0 {
        Seq::empty()
    } else {
        period_step(periods_of(cs.drop_last(), use_weeks), cs.last(), use_weeks)
    }
}

/// Whether every step of `periods_of` is defined and stays within `u32`.
pub open spec fn timeline_fits(cs: Seq<CommitView>, use_weeks: bool) -> bool
    decreases cs.len(),
{
    cs.len() == 0 || (timeline_fits(cs.drop_last(), use_weeks) && period_step_ok(periods_of(cs.drop_last(), use_weeks), cs.last(), use_weeks))
}

/// No two periods share a name.
pub proof fn lemma_periods_distinct(cs: Seq<CommitView>, use_weeks: bool)
    ensures
        period_names(periods_of(cs, use_weeks)).no_duplicates(),
    decreases cs.len(),
{
    if cs.len() > 0 {
        let prev = periods_of(cs.drop_last(), use_weeks);
        let c = cs.last();
        lemma_periods_distinct(cs.drop_last(), use_weeks);
        let ns = period_names(prev);
        match parse_i64(c.date) {
            Some(ts) => match utc_date_parts(ts) {
                Some(p) => {
                    let key = period_key(p, use_weeks);
                    let k = pos_of(ns, key);
                    lemma_pos_of(ns, key);
                    let next = periods_of(cs, use_weeks);
                    if k >= 0 {
                        assert(ns[k] == prev[k].period_name);
                        assert(period_names(next) =~= ns.update(k, ns[k]));
                        assert(ns.update(k, ns[k]) =~= ns);
                    } else {
                        assert(period_names(next) =~= ns.push(key));
                        lemma_push_new(ns, key);
                    }
                },
                None => {},
            },
            None => {},
        }
    }
}

/// The timeline of `cs`: its periods in name order.
pub open spec fn timeline_of(cs: Seq<CommitView>, use_weeks: bool) -> Seq<PeriodView> {
    stable_sort::<TimelinePeriod>(periods_of(cs, use_weeks))
}

/// The name of the period of calendar parts.
fn period_key_string(p: (i32, u32, i32, u32), use_weeks: bool) -> (r: String)
    ensures
        r@ == period_key(p, use_weeks),
{
    let mut v: Vec<char> = Vec::new();
    if use_weeks {
        push_padded_int(&mut v, p.2 as i64, 4);
        v.push('-');
        v.push('W');
        push_padded_nat(&mut v, p.3 as u64, 2);
    } else {
        push_padded_int(&mut v, p.0 as i64, 4);
        v.push('-');
        push_padded_nat(&mut v, p.1 as u64, 2);
    }
    assert(v@ =~= period_key(p, use_weeks));
    string_of(&v)
}

/// The position of period `key` in `ps`, or `ps.len()` when absent.
fn find_period(ps: &Vec<TimelinePeriod>, key: &String) -> (r: usize)
    ensures
        r <= ps@.len(),
        r < ps@.len() ==> pos_of(period_names(views(ps@)), key@) == r as int,
        r == ps@.len() ==> pos_of(period_names(views(ps@)), key@) == -1,
{
    let ghost names = period_names(views(ps@));
    let mut i: usize = 0;
    while i < ps.len()
        invariant
            i <= ps@.len(),
            names == period_names(views(ps@)),
            forall|j: int| 0 <= j < i ==> ps@[j].period_name@ != key@,
        decreases ps@.len() - i,
    {
        if ps[i].period_name == *key {
            proof {
                assert forall|j: int| 0 <= j < names.len() && j < i implies names[j] != key@ by {
                    assert(names[j] == ps@[j].period_name@);
                }
                lemma_pos_of_is(names, key@, i as int);
            }
            return i;
        }
        i = i + 1;
    }
    proof {
        assert forall|j: int| 0 <= j < names.len() implies names[j] != key@ by {
            assert(names[j] == ps@[j].period_name@);
        }
        lemma_pos_of_is(names, key@, -1);
    }
    i
}

/// Counts one commit in, or `false` (leaving `ps` as it is) when the step is undefined or
/// would overflow.
fn period_step_exec(ps: &mut Vec<TimelinePeriod>, c: &Commit, use_weeks: bool) -> (ok: bool)
    ensures
        ok == period_step_ok(views(old(ps)@), c@, use_weeks),
        ok ==> views(final(ps)@) == period_step(views(old(ps)@), c@, use_weeks),
{
    let ghost p0 = views(ps@);
    let ts = match parse_i64_chars(&chars_of(c.date.as_str())) {
        Some(ts) => ts,
        None => {
            return true;
        },
    };
    let parts = match date_parts(ts) {
        Some(p) => p,
        None => {
            return false;
        },
    };
    let key = period_key_string(parts, use_weeks);
    let i = find_period(ps, &key);
    let found = i < ps.len();
    let (cm, ins, del): (u32, u32, u32) = if found {
        (ps[i].commits, ps[i].insertions, ps[i].deletions)
    } else {
        (0, 0, 0)
    };
    proof {
        lemma_pos_of(period_names(p0), key@);
        if found {
            assert(period_names(p0)[i as int] == p0[i as int].period_name);
        }
    }
    if cm as u64 + 1 > 0xFFFF_FFFF || ins as u64 + c.insertions as u64 > 0xFFFF_FFFF || del as u64 + c.deletions as u64 > 0xFFFF_FFFF {
        return false;
    }
    let e = TimelinePeriod { period_name: key, commits: cm + 1, insertions: ins + c.insertions, deletions: del + c.deletions };
    if found {
        ps.set(i, e);
    } else {
        ps.push(e);
    }
    assert(views(ps@) =~= period_step(p0, c@, use_weeks));
    true
}

/// The periods of `commits` in the order first seen, or `None` when a step is undefined or
/// would overflow.
fn collect_periods(commits: &[Commit], use_weeks: bool) -> (r: Option<Vec<TimelinePeriod>>)
    ensures
        r is Some <==> timeline_fits(commit_views(commits@), use_weeks),
        r matches Some(v) ==> views(v@) == periods_of(commit_views(commits@), use_weeks),
{
    let ghost cs = commit_views(commits@);
    let mut ps: Vec<TimelinePeriod> = Vec::new();
    let mut i: usize = 0;
    assert(cs.take(0) =~= Seq::<CommitView>::empty());
    assert(views(ps@) =~= Seq::<PeriodView>::empty());
    while i < commits.len()
        invariant
            i <= commits@.len() == cs.len(),
            cs == commit_views(commits@),
            timeline_fits(cs.take(i as int), use_weeks),
            views(ps@) == periods_of(cs.take(i as int), use_weeks),
        decreases commits@.len() - i,
    {
        assert(cs.take(i + 1).drop_last() =~= cs.take(i as int));
        assert(cs.take(i + 1).last() == commits@[i as int]@);
        if !period_step_exec(&mut ps, &commits[i], use_weeks) {
            proof {
                if timeline_fits(cs, use_weeks) {
                    lemma_timeline_fits_prefix(cs, use_weeks, i + 1);
                }
            }
            return None;
        }
        i = i + 1;
    }
    assert(cs.take(commits@.len() as int) =~= cs);
    Some(ps)
}

/// Prefixes of fitting commit sequences fit.
proof fn lemma_timeline_fits_prefix(cs: Seq<CommitView>, use_weeks: bool, k: int)
    requires
        0 <= k <= cs.len(),
        timeline_fits(cs, use_weeks),
    ensures
        timeline_fits(cs.take(k), use_weeks),
    decreases cs.len() - k,
{
    if k < cs.len() {
        lemma_timeline_fits_prefix(cs, use_weeks, k + 1);
        assert(cs.take(k + 1).drop_last() =~= cs.take(k));
    } else {
        assert(cs.take(k) =~= cs);
    }
}

/// Generates a timeline from a list of commits.
/// Grouped by weeks if `use_weeks` is true, otherwise by months; periods in name order.
pub fn generate_timeline(commits: &[Commit], use_weeks: bool) -> (r: Vec<TimelinePeriod>)
    requires
        timeline_fits(commit_views(commits@), use_weeks),
    ensures
        views(r@) == timeline_of(commit_views(commits@), use_weeks),
{
    match collect_periods(commits, use_weeks) {
        Some(ps) => stable_sort_vec(ps),
        None => Vec::new(),
    }
}

/// `generate_timeline` when every dated commit is representable and no count overflows
/// `u32`; `None` otherwise.
pub fn try_generate_timeline(commits: &[Commit], use_weeks: bool) -> (r: Option<Vec<TimelinePeriod>>)
    ensures
        r is Some <==> timeline_fits(commit_views(commits@), use_weeks),
        r matches Some(v) ==> views(v@) == timeline_of(commit_views(commits@), use_weeks),
{
    match collect_periods(commits, use_weeks) {
        Some(_) => Some(generate_timeline(commits, use_weeks)),
        None => None,
    }
}

// ---------------------------------------------------------------- what the periods count

/// The name of the period a commit falls in, when its date is a representable timestamp.
pub open spec fn commit_period(c: CommitView, use_weeks: bool) -> Option<Seq<char>> {
    match parse_i64(c.date) {
        Some(ts) => match utc_date_parts(ts) {
            Some(p) => Some(period_key(p, use_weeks)),
            None => None,
        },
        None => None,
    }
}

/// How many of the commits `cs` fall in the period named `key`.
pub open spec fn commits_in(cs: Seq<CommitView>, key: Seq<char>, use_weeks: bool) -> nat
    decreases cs.len(),
{
    if cs.len() == 0 {
        0
    } else {
        commits_in(cs.drop_last(), key, use_weeks) + if commit_period(cs.last(), use_weeks) == Some(key) { 1nat } else { 0nat }
    }
}

/// The insertions of the commits of `cs` that fall in the period named `key`.
pub open spec fn insertions_in(cs: Seq<CommitView>, key: Seq<char>, use_weeks: bool) -> nat
    decreases cs.len(),
{
    if cs.len() == 0 {
        0
    } else {
        insertions_in(cs.drop_last(), key, use_weeks)
            + if commit_period(cs.last(), use_weeks) == Some(key) { cs.last().insertions } else { 0nat }
    }
}

/// The deletions of the commits of `cs` that fall in the period named `key`.
pub open spec fn deletions_in(cs: Seq<CommitView>, key: Seq<char>, use_weeks: bool) -> nat
    decreases cs.len(),
{
    if cs.len() == 0 {
        0
    } else {
        deletions_in(cs.drop_last(), key, use_weeks)
            + if commit_period(cs.last(), use_weeks) == Some(key) { cs.last().deletions } else { 0nat }
    }
}

/// The period named `key`, if any, holds the totals of the commits that fall in it, and
/// there is one exactly when a commit does.
pub proof fn lemma_period_totals(cs: Seq<CommitView>, use_weeks: bool, key: Seq<char>)
    ensures
        ({
            let ps = periods_of(cs, use_weeks);
            let k = pos_of(period_names(ps), key);
            &&& k >= 0 ==> ps[k].period_name == key && ps[k].commits == commits_in(cs, key, use_weeks)
                && ps[k].insertions == insertions_in(cs, key, use_weeks) && ps[k].deletions == deletions_in(cs, key, use_weeks)
            &&& k >= 0 <==> commits_in(cs, key, use_weeks) > 0
            &&& k < 0 ==> insertions_in(cs, key, use_weeks) == 0 && deletions_in(cs, key, use_weeks) == 0
        }),
    decreases cs.len(),
{
    let ps = periods_of(cs, use_weeks);
    lemma_pos_of(period_names(ps), key);
    if pos_of(period_names(ps), key) >= 0 {
        assert(period_names(ps)[pos_of(period_names(ps), key)] == ps[pos_of(period_names(ps), key)].period_name);
    }
    if cs.len() > 0 {
        let prev = cs.drop_last();
        let c = cs.last();
        lemma_period_totals(prev, use_weeks, key);
        let p0 = periods_of(prev, use_weeks);
        let ns = period_names(p0);
        lemma_pos_of(ns, key);
        let k0 = pos_of(ns, key);
        let k = pos_of(period_names(ps), key);
        if commit_period(c, use_weeks) == Some(key) {
            assert(commits_in(cs, key, use_weeks) == commits_in(prev, key, use_weeks) + 1);
            assert(insertions_in(cs, key, use_weeks) == insertions_in(prev, key, use_weeks) + c.insertions);
            assert(deletions_in(cs, key, use_weeks) == deletions_in(prev, key, use_weeks) + c.deletions);
        } else {
            assert(commits_in(cs, key, use_weeks) == commits_in(prev, key, use_weeks));
            assert(insertions_in(cs, key, use_weeks) == insertions_in(prev, key, use_weeks));
            assert(deletions_in(cs, key, use_weeks) == deletions_in(prev, key, use_weeks));
        }
        match commit_period(c, use_weeks) {
            Some(ck) => {
                let kc = pos_of(ns, ck);
                lemma_pos_of(ns, ck);
                let e = period_entry(p0, ck);
                let e2 = PeriodView {
                    period_name: e.period_name,
                    commits: e.commits + 1,
                    insertions: e.insertions + c.insertions,
                    deletions: e.deletions + c.deletions,
                };
                if kc >= 0 {
                    assert(ns[kc] == p0[kc].period_name);
                    assert(ps == p0.update(kc, e2));
                    assert(period_names(ps) =~= ns.update(kc, ns[kc]));
                    assert(ns.update(kc, ns[kc]) =~= ns);
                    if k0 >= 0 {
                        assert(ns[k0] == p0[k0].period_name);
                    }
                } else {
                    assert(e.commits == 0 && e.insertions == 0 && e.deletions == 0 && e.period_name == ck);
                    assert(ps == p0.push(e2));
                    assert(period_names(ps) =~= ns.push(ck));
                    lemma_pos_of_push(ns, ck, key);
                    if k0 >= 0 {
                        assert(ns[k0] == p0[k0].period_name);
                        assert(ps[k0] == p0[k0]);
                    }
                }
            },
            None => {
                assert(ps == p0);
            },
        }
    }
}

/// How many of the commits `cs` have a representable date (and so fall in some period).
pub open spec fn dated_count(cs: Seq<CommitView>, use_weeks: bool) -> nat
    decreases cs.len(),
{
    if cs.len() == 0 {
        0
    } else {
        dated_count(cs.drop_last(), use_weeks) + if commit_period(cs.last(), use_weeks) is Some { 1nat } else { 0nat }
    }
}

/// The periods' commits add up to the commits with a representable date.
pub proof fn lemma_periods_sum(cs: Seq<CommitView>, use_weeks: bool)
    ensures
        crate::seqs::sum_by(periods_of(cs, use_weeks), |p: PeriodView| p.commits) == dated_count(cs, use_weeks),
    decreases cs.len(),
{
    let w = |p: PeriodView| p.commits;
    if cs.len() > 0 {
        let prev = cs.drop_last();
        let c = cs.last();
        lemma_periods_sum(prev, use_weeks);
        let p0 = periods_of(prev, use_weeks);
        match commit_period(c, use_weeks) {
            Some(key) => {
                let ns = period_names(p0);
                let k = pos_of(ns, key);
                lemma_pos_of(ns, key);
                let e = period_entry(p0, key);
                let e2 = PeriodView {
                    period_name: e.period_name,
                    commits: e.commits + 1,
                    insertions: e.insertions + c.insertions,
                    deletions: e.deletions + c.deletions,
                };
                if k >= 0 {
                    crate::seqs::lemma_sum_by_update(p0, k, e2, w);
                } else {
                    assert(p0.push(e2).drop_last() =~= p0);
                }
            },
            None => {},
        }
    }
}

/// A period with commits in it is the period of one of the commits.
proof fn lemma_commits_in_witness(cs: Seq<CommitView>, key: Seq<char>, use_weeks: bool)
    requires
        commits_in(cs, key, use_weeks) > 0,
    ensures
        exists|j: int| 0 <= j < cs.len() && #[trigger] commit_period(cs[j], use_weeks) == Some(key),
    decreases cs.len(),
{
    if commit_period(cs.last(), use_weeks) == Some(key) {
        assert(commit_period(cs[cs.len() - 1], use_weeks) == Some(key));
    } else {
        lemma_commits_in_witness(cs.drop_last(), key, use_weeks);
        let j = choose|j: int| 0 <= j < cs.drop_last().len() && #[trigger] commit_period(cs.drop_last()[j], use_weeks) == Some(key);
        assert(cs.drop_last()[j] == cs[j]);
    }
}

/// The timeline's commits add up to the number of commits with a representable date, and
/// every period is named after the date of one of the commits (`period_key` of its calendar
/// parts).
pub proof fn law_timeline_sums(cs: Seq<CommitView>, use_weeks: bool)
    ensures
        crate::seqs::sum_by(timeline_of(cs, use_weeks), |p: PeriodView| p.commits) == dated_count(cs, use_weeks),
        forall|i: int| 0 <= i < timeline_of(cs, use_weeks).len() ==> exists|j: int|
            0 <= j < cs.len() && #[trigger] commit_period(cs[j], use_weeks) == Some((#[trigger] timeline_of(cs, use_weeks)[i]).period_name),
{
    let w = |p: PeriodView| p.commits;
    let pre = periods_of(cs, use_weeks);
    let s = timeline_of(cs, use_weeks);
    lemma_periods_sum(cs, use_weeks);
    crate::seqs::lemma_stable_sort_sum::<TimelinePeriod>(pre, w);
    lemma_periods_distinct(cs, use_weeks);
    assert forall|i: int| 0 <= i < s.len() implies exists|j: int|
        0 <= j < cs.len() && #[trigger] commit_period(cs[j], use_weeks) == Some((#[trigger] s[i]).period_name) by {
        assert(s.contains(s[i]));
        crate::seqs::lemma_stable_sort_contains::<TimelinePeriod>(pre, s[i]);
        let k = choose|k: int| 0 <= k < pre.len() && pre[k] == s[i];
        let key = pre[k].period_name;
        lemma_period_totals(cs, use_weeks, key);
        assert(period_names(pre)[k] == key);
        lemma_pos_of(period_names(pre), key);
        lemma_commits_in_witness(cs, key, use_weeks);
    }
}

} // verus!
