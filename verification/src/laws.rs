use vstd::prelude::*;

use crate::average::{
    average_defined, average_of, ceil_hundredth, counted_times, dnf_count, finished_times, lemma_counts_add_up,
    lemma_is_sort, lemma_sort_ascending, sum_of, trim_amount, Average, AverageError, AverageKind,
};
use crate::session::{
    is_best_solve, is_best_window, is_candidate, window_average, window_defined, window_ranks_before,
    window_value,
};
use crate::solve::{all_times_fit, effective_time_of, ranks_before, time_fits, Penalty, Solve};

verus! {

broadcast use vstd::seq_lib::group_to_multiset_ensures;

// ---------------------------------------------------------------------------
// Helper lemmas
// ---------------------------------------------------------------------------

proof fn lemma_split_concat(x: Seq<Solve>, y: Seq<Solve>)
    ensures
        finished_times(x + y) == finished_times(x) + finished_times(y),
        dnf_count(x + y) == dnf_count(x) + dnf_count(y),
    decreases y.len(),
{
    if y.len() == 0 {
        assert(x + y =~= x);
        assert(finished_times(x) + finished_times(y) =~= finished_times(x));
    } else {
        lemma_split_concat(x, y.drop_last());
        assert((x + y).drop_last() =~= x + y.drop_last());
        assert((x + y).last() == y.last());
        let fx = finished_times(x);
        let fy = finished_times(y.drop_last());
        match effective_time_of(y.last()) {
            Some(t) => {
                assert((fx + fy).push(t) =~= fx + fy.push(t));
            },
            None => {},
        }
    }
}

proof fn lemma_finished_of_single(s: Solve)
    ensures
        finished_times(seq![s]) == (match effective_time_of(s) {
            Some(t) => seq![t],
            None => Seq::<int>::empty(),
        }),
        dnf_count(seq![s]) == (if effective_time_of(s) is Some {
            0nat
        } else {
            1nat
        }),
{
    assert(seq![s].drop_last() =~= Seq::<Solve>::empty());
    assert(seq![s].last() == s);
    assert(finished_times(Seq::<Solve>::empty()) == Seq::<int>::empty());
    assert(dnf_count(Seq::<Solve>::empty()) == 0);
    match effective_time_of(s) {
        Some(t) => {
            assert(Seq::<int>::empty().push(t) =~= seq![t]);
        },
        None => {},
    }
}

/// Permuted solves have permuted finished times and as many DNFs.
proof fn lemma_permuted_parts(a: Seq<Solve>, b: Seq<Solve>)
    requires
        a.to_multiset() == b.to_multiset(),
    ensures
        finished_times(a).to_multiset() == finished_times(b).to_multiset(),
        dnf_count(a) == dnf_count(b),
    decreases a.len(),
{
    vstd::seq_lib::to_multiset_len(a);
    vstd::seq_lib::to_multiset_len(b);
    if a.len() == 0 {
        assert(b.len() == 0);
        assert(b =~= Seq::<Solve>::empty());
        assert(a =~= Seq::<Solve>::empty());
    } else {
        let x = a.last();
        let a1 = a.drop_last();
        assert(a =~= a1.push(x));
        assert(a.to_multiset().count(x) > 0);
        assert(b.contains(x));
        let k = choose|k: int| 0 <= k < b.len() && b[k] == x;
        let b1 = b.remove(k);
        assert(b1.to_multiset() =~= a1.to_multiset());
        lemma_permuted_parts(a1, b1);
        let left = b.subrange(0, k);
        let right = b.subrange(k + 1, b.len() as int);
        assert(b1 =~= left + right);
        assert(b =~= left + seq![x] + right);
        lemma_split_concat(left, right);
        lemma_split_concat(left, seq![x]);
        lemma_split_concat(left + seq![x], right);
        lemma_finished_of_single(x);
        let fl = finished_times(left);
        let fr = finished_times(right);
        let fx = finished_times(seq![x]);
        vstd::seq_lib::lemma_multiset_commutative(fl, fr);
        vstd::seq_lib::lemma_multiset_commutative(fl, fx);
        vstd::seq_lib::lemma_multiset_commutative(fl + fx, fr);
        match effective_time_of(x) {
            Some(t) => {
                assert(finished_times(a) == finished_times(a1).push(t));
                assert(fx =~= seq![t]);
                assert(finished_times(b).to_multiset() =~= finished_times(b1).to_multiset().insert(
                    t,
                ));
            },
            None => {
                assert(fx =~= Seq::<int>::empty());
                assert(finished_times(b).to_multiset() =~= finished_times(b1).to_multiset());
            },
        }
    }
}

proof fn lemma_permuted_fit(a: Seq<Solve>, b: Seq<Solve>)
    requires
        a.to_multiset() == b.to_multiset(),
        all_times_fit(a),
    ensures
        all_times_fit(b),
{
    assert forall|i: int| 0 <= i < b.len() implies #[trigger] time_fits(b[i]) by {
        assert(b.to_multiset().count(b[i]) > 0);
        assert(a.contains(b[i]));
    }
}

proof fn lemma_sum_bounds(s: Seq<int>, lo: int, hi: int)
    requires
        forall|i: int| 0 <= i < s.len() ==> lo <= #[trigger] s[i] <= hi,
    ensures
        s.len() * lo <= sum_of(s) <= s.len() * hi,
    decreases s.len(),
{
    if s.len() > 0 {
        lemma_sum_bounds(s.drop_last(), lo, hi);
        let n = s.drop_last().len();
        assert(s.len() * lo == n * lo + lo) by (nonlinear_arith)
            requires
                s.len() == n + 1,
        ;
        assert(s.len() * hi == n * hi + hi) by (nonlinear_arith)
            requires
                s.len() == n + 1,
        ;
    }
}


/// How many elements of `s` are at most `v`.
spec fn count_at_most(s: Seq<int>, v: int) -> nat
    decreases s.len(),
{
    if s.len() == 0 {
        0
    } else {
        count_at_most(s.drop_last(), v) + if s.last() <= v {
            1nat
        } else {
            0nat
        }
    }
}

proof fn lemma_count_concat(x: Seq<int>, y: Seq<int>, v: int)
    ensures
        count_at_most(x + y, v) == count_at_most(x, v) + count_at_most(y, v),
    decreases y.len(),
{
    if y.len() == 0 {
        assert(x + y =~= x);
    } else {
        lemma_count_concat(x, y.drop_last(), v);
        assert((x + y).drop_last() =~= x + y.drop_last());
    }
}

proof fn lemma_count_permuted(s: Seq<int>, t: Seq<int>, v: int)
    requires
        s.to_multiset() == t.to_multiset(),
    ensures
        count_at_most(s, v) == count_at_most(t, v),
    decreases s.len(),
{
    vstd::seq_lib::to_multiset_len(s);
    vstd::seq_lib::to_multiset_len(t);
    if s.len() == 0 {
        assert(t =~= Seq::<int>::empty());
    } else {
        let x = s.last();
        let s1 = s.drop_last();
        assert(s =~= s1.push(x));
        assert(s.to_multiset().count(x) > 0);
        assert(t.contains(x));
        let k = choose|k: int| 0 <= k < t.len() && t[k] == x;
        let t1 = t.remove(k);
        assert(t1.to_multiset() =~= s1.to_multiset());
        lemma_count_permuted(s1, t1, v);
        let left = t.subrange(0, k);
        let right = t.subrange(k + 1, t.len() as int);
        assert(t1 =~= left + right);
        assert(t =~= left + seq![x] + right);
        lemma_count_concat(left, right, v);
        lemma_count_concat(left, seq![x], v);
        lemma_count_concat(left + seq![x], right, v);
        assert(seq![x].drop_last() =~= Seq::<int>::empty());
        assert(seq![x].last() == x);
        assert(count_at_most(Seq::<int>::empty(), v) == 0);
        assert(count_at_most(s, v) == count_at_most(s1, v) + count_at_most(seq![x], v));
    }
}

proof fn lemma_count_grows(s: Seq<int>, v: int, w: int)
    requires
        v <= w,
    ensures
        count_at_most(s, v) <= count_at_most(s, w),
    decreases s.len(),
{
    if s.len() > 0 {
        lemma_count_grows(s.drop_last(), v, w);
    }
}

proof fn lemma_count_at_most_len(s: Seq<int>, v: int)
    ensures
        count_at_most(s, v) <= s.len(),
    decreases s.len(),
{
    if s.len() > 0 {
        lemma_count_at_most_len(s.drop_last(), v);
    }
}

/// In an ascending sequence, at least `k + 1` elements are at most `t[k]`.
proof fn lemma_sorted_count_at(t: Seq<int>, k: int)
    requires
        forall|i: int, j: int| 0 <= i < j < t.len() ==> t[i] <= t[j],
        0 <= k < t.len(),
    ensures
        count_at_most(t, t[k]) >= k + 1,
    decreases t.len(),
{
    let d = t.drop_last();
    if k < t.len() - 1 {
        lemma_sorted_count_at(d, k);
    } else if k > 0 {
        lemma_sorted_count_at(d, k - 1);
        lemma_count_grows(d, d[k - 1], t[k]);
    }
}

/// In an ascending sequence with `t[k] > v`, at most `k` elements are at
/// most `v`.
proof fn lemma_sorted_count_below(t: Seq<int>, k: int, v: int)
    requires
        forall|i: int, j: int| 0 <= i < j < t.len() ==> t[i] <= t[j],
        0 <= k < t.len(),
        t[k] > v,
    ensures
        count_at_most(t, v) <= k,
    decreases t.len(),
{
    let d = t.drop_last();
    assert(t.last() > v) by {
        if k < t.len() - 1 {
            assert(t[k] <= t[t.len() - 1]);
        }
    }
    if k < t.len() - 1 {
        lemma_sorted_count_below(d, k, v);
    } else {
        lemma_count_at_most_len(d, v);
    }
}

/// Where each solve of `a` ranks no later than the matching solve of `b`,
/// `a` has no more DNFs, and at least as many finished times at most `v`.
proof fn lemma_pointwise_parts(a: Seq<Solve>, b: Seq<Solve>, v: int)
    requires
        a.len() == b.len(),
        forall|i: int| 0 <= i < a.len() ==> !ranks_before(#[trigger] b[i], a[i]),
    ensures
        dnf_count(a) <= dnf_count(b),
        count_at_most(finished_times(b), v) <= count_at_most(finished_times(a), v),
    decreases a.len(),
{
    if a.len() > 0 {
        let a1 = a.drop_last();
        let b1 = b.drop_last();
        assert forall|i: int| 0 <= i < a1.len() implies !ranks_before(#[trigger] b1[i], a1[i]) by {
            assert(!ranks_before(b[i], a[i]));
        }
        lemma_pointwise_parts(a1, b1, v);
        assert(!ranks_before(b[a.len() - 1], a[a.len() - 1]));
        let fa1 = finished_times(a1);
        let fb1 = finished_times(b1);
        match effective_time_of(a.last()) {
            Some(t) => {
                assert(fa1.push(t).drop_last() =~= fa1);
            },
            None => {},
        }
        match effective_time_of(b.last()) {
            Some(t) => {
                assert(fb1.push(t).drop_last() =~= fb1);
            },
            None => {},
        }
    }
}

/// The `k`-th smallest finished time of `a` is at most that of `b`.
proof fn lemma_order_statistic(a: Seq<Solve>, b: Seq<Solve>, k: int)
    requires
        a.len() == b.len(),
        forall|i: int| 0 <= i < a.len() ==> !ranks_before(#[trigger] b[i], a[i]),
        0 <= k < finished_times(a).len(),
        k < finished_times(b).len(),
    ensures
        finished_times(a).sort()[k] <= finished_times(b).sort()[k],
{
    let fa = finished_times(a);
    let fb = finished_times(b);
    lemma_sort_ascending(fa);
    lemma_sort_ascending(fb);
    let sa = fa.sort();
    let sb = fb.sort();
    let v = sb[k];
    lemma_sorted_count_at(sb, k);
    lemma_count_permuted(sb, fb, v);
    lemma_pointwise_parts(a, b, v);
    lemma_count_permuted(fa, sa, v);
    if sa[k] > v {
        lemma_sorted_count_below(sa, k, v);
    }
}

proof fn lemma_sum_nonneg(x: Seq<int>)
    requires
        forall|i: int| 0 <= i < x.len() ==> #[trigger] x[i] >= 0,
    ensures
        sum_of(x) >= 0,
    decreases x.len(),
{
    if x.len() > 0 {
        lemma_sum_nonneg(x.drop_last());
    }
}

proof fn lemma_sum_pointwise(x: Seq<int>, y: Seq<int>)
    requires
        x.len() == y.len(),
        forall|i: int| 0 <= i < x.len() ==> #[trigger] x[i] <= y[i],
    ensures
        sum_of(x) <= sum_of(y),
    decreases x.len(),
{
    if x.len() > 0 {
        lemma_sum_pointwise(x.drop_last(), y.drop_last());
    }
}

// ---------------------------------------------------------------------------
// Laws of the pieces of an average
// ---------------------------------------------------------------------------

/// A clean solve counts its raw time, a `Plus2` counts exactly two seconds
/// more, and a DNF counts no time.
pub proof fn lemma_penalty_times(t: u32)
    ensures
        effective_time_of(Solve { time: t, penalty: Penalty::Clean }) == Some(t as int),
        effective_time_of(Solve { time: t, penalty: Penalty::Plus2 }) == Some(t + 2000),
        effective_time_of(Solve { time: t, penalty: Penalty::Dnf }) is None,
{
}

/// The trim is the percentage of the solves rounded up: the least `t` with
/// `100 * t >= len * percent`; a plain mean trims nothing.
pub proof fn lemma_trim_rounds_up(len: nat, percent: usize)
    ensures
        trim_amount(len, AverageKind::Mean) == 0,
        100 * trim_amount(len, AverageKind::TrimmedMean(percent)) >= len * percent,
        100 * trim_amount(len, AverageKind::TrimmedMean(percent)) < len * percent + 100,
{
    let n = len * (percent as nat);
    assert(100 * ceil_hundredth(n) >= n && 100 * ceil_hundredth(n) < n + 100) by {
        assert(n == 100 * (n / 100) + n % 100);
    }
}

/// An average is never `Incomplete`; with enough solves it fails only when
/// too few are given for the trim.
pub proof fn lemma_average_not_incomplete(solves: Seq<Solve>, kind: AverageKind)
    ensures
        average_of(solves, kind) != Ok::<Average, AverageError>(Average::Incomplete),
        average_of(solves, kind) is Err <==> solves.len() < 2 * trim_amount(solves.len(), kind)
            + 1,
{
}

/// With enough solves, an average is a DNF when every solve is a DNF, and
/// never a DNF when no solve is.
pub proof fn lemma_dnf_extremes(solves: Seq<Solve>, kind: AverageKind)
    requires
        solves.len() >= 2 * trim_amount(solves.len(), kind) + 1,
    ensures
        (forall|i: int| 0 <= i < solves.len() ==> #[trigger] solves[i].penalty == Penalty::Dnf)
            ==> average_of(solves, kind) == Ok::<Average, AverageError>(Average::Dnf),
        (forall|i: int| 0 <= i < solves.len() ==> #[trigger] solves[i].penalty != Penalty::Dnf)
            ==> average_of(solves, kind) is Ok && average_of(solves, kind)->Ok_0 is Time,
{
    lemma_counts_add_up(solves);
    if forall|i: int| 0 <= i < solves.len() ==> #[trigger] solves[i].penalty == Penalty::Dnf {
        lemma_all_dnf(solves);
    }
    if forall|i: int| 0 <= i < solves.len() ==> #[trigger] solves[i].penalty != Penalty::Dnf {
        lemma_no_dnf(solves);
    }
}

proof fn lemma_all_dnf(solves: Seq<Solve>)
    requires
        forall|i: int| 0 <= i < solves.len() ==> #[trigger] solves[i].penalty == Penalty::Dnf,
    ensures
        dnf_count(solves) == solves.len(),
    decreases solves.len(),
{
    if solves.len() > 0 {
        let d = solves.drop_last();
        assert forall|i: int| 0 <= i < d.len() implies #[trigger] d[i].penalty == Penalty::Dnf by {
            assert(solves[i].penalty == Penalty::Dnf);
        }
        lemma_all_dnf(d);
        assert(solves[solves.len() - 1].penalty == Penalty::Dnf);
    }
}

proof fn lemma_no_dnf(solves: Seq<Solve>)
    requires
        forall|i: int| 0 <= i < solves.len() ==> #[trigger] solves[i].penalty != Penalty::Dnf,
    ensures
        dnf_count(solves) == 0,
    decreases solves.len(),
{
    if solves.len() > 0 {
        let d = solves.drop_last();
        assert forall|i: int| 0 <= i < d.len() implies #[trigger] d[i].penalty != Penalty::Dnf by {
            assert(solves[i].penalty != Penalty::Dnf);
        }
        lemma_no_dnf(d);
        assert(solves[solves.len() - 1].penalty != Penalty::Dnf);
    }
}


/// The number of DNF solves, counted by penalty.
pub open spec fn dnfs_by_penalty(solves: Seq<Solve>) -> nat {
    solves.filter(|s: Solve| s.penalty == Penalty::Dnf).len()
}

/// The total effective time of the finished solves, taken in order.
pub open spec fn total_finished_time(solves: Seq<Solve>) -> int
    decreases solves.len(),
{
    if solves.len() == 0 {
        0
    } else {
        total_finished_time(solves.drop_last()) + match effective_time_of(solves.last()) {
            Some(t) => t,
            None => 0,
        }
    }
}

proof fn lemma_dnf_count_by_penalty(solves: Seq<Solve>)
    ensures
        dnf_count(solves) == dnfs_by_penalty(solves),
    decreases solves.len(),
{
    if solves.len() > 0 {
        let d = solves.drop_last();
        lemma_dnf_count_by_penalty(d);
        assert(solves =~= d.push(solves.last()));
        d.lemma_filter_push(solves.last(), |s: Solve| s.penalty == Penalty::Dnf);
    }
}

/// With enough solves, an average is a DNF exactly when more solves are DNFs
/// than are trimmed at each end.
pub proof fn lemma_dnf_when_more_dnfs_than_trim(solves: Seq<Solve>, kind: AverageKind)
    requires
        solves.len() >= 2 * trim_amount(solves.len(), kind) + 1,
    ensures
        average_of(solves, kind) == Ok::<Average, AverageError>(Average::Dnf) <==> dnfs_by_penalty(
            solves,
        ) > trim_amount(solves.len(), kind),
{
    lemma_dnf_count_by_penalty(solves);
}

proof fn lemma_sum_concat(x: Seq<int>, y: Seq<int>)
    ensures
        sum_of(x + y) == sum_of(x) + sum_of(y),
    decreases y.len(),
{
    if y.len() == 0 {
        assert(x + y =~= x);
    } else {
        lemma_sum_concat(x, y.drop_last());
        assert((x + y).drop_last() =~= x + y.drop_last());
    }
}

proof fn lemma_sum_permuted(s: Seq<int>, t: Seq<int>)
    requires
        s.to_multiset() == t.to_multiset(),
    ensures
        sum_of(s) == sum_of(t),
    decreases s.len(),
{
    vstd::seq_lib::to_multiset_len(s);
    vstd::seq_lib::to_multiset_len(t);
    if s.len() == 0 {
        assert(t =~= Seq::<int>::empty());
    } else {
        let x = s.last();
        let s1 = s.drop_last();
        assert(s =~= s1.push(x));
        assert(s.to_multiset().count(x) > 0);
        assert(t.contains(x));
        let k = choose|k: int| 0 <= k < t.len() && t[k] == x;
        let t1 = t.remove(k);
        assert(t1.to_multiset() =~= s1.to_multiset());
        lemma_sum_permuted(s1, t1);
        let left = t.subrange(0, k);
        let right = t.subrange(k + 1, t.len() as int);
        assert(t1 =~= left + right);
        assert(t =~= left + seq![x] + right);
        lemma_sum_concat(left, right);
        lemma_sum_concat(left, seq![x]);
        lemma_sum_concat(left + seq![x], right);
        assert(seq![x].drop_last() =~= Seq::<int>::empty());
        assert(sum_of(Seq::<int>::empty()) == 0);
        assert(seq![x].last() == x);
        assert(sum_of(seq![x]) == x);
    }
}

proof fn lemma_total_is_sum_of_finished(solves: Seq<Solve>)
    ensures
        sum_of(finished_times(solves)) == total_finished_time(solves),
    decreases solves.len(),
{
    if solves.len() > 0 {
        lemma_total_is_sum_of_finished(solves.drop_last());
        let r = finished_times(solves.drop_last());
        match effective_time_of(solves.last()) {
            Some(t) => {
                assert(r.push(t).drop_last() =~= r);
            },
            None => {},
        }
    }
}

/// A plain mean of solves none of which is a DNF is their total effective
/// time divided by their number, rounded down.
pub proof fn lemma_mean_is_total_over_count(solves: Seq<Solve>)
    requires
        0 < solves.len() <= u32::MAX,
        forall|i: int| 0 <= i < solves.len() ==> #[trigger] solves[i].penalty != Penalty::Dnf,
        average_defined(solves, AverageKind::Mean),
    ensures
        average_of(solves, AverageKind::Mean) == Ok::<Average, AverageError>(
            Average::Time((total_finished_time(solves) / (solves.len() as int)) as u32),
        ),
{
    lemma_no_dnf(solves);
    lemma_counts_add_up(solves);
    let f = finished_times(solves);
    lemma_sort_ascending(f);
    assert(counted_times(solves, 0) =~= f.sort());
    lemma_sum_permuted(f.sort(), f);
    lemma_total_is_sum_of_finished(solves);
    assert(((solves.len() as u32) as int) == solves.len());
}


proof fn lemma_finished_comes_from_solves(solves: Seq<Solve>, v: int)
    requires
        finished_times(solves).contains(v),
    ensures
        exists|i: int| 0 <= i < solves.len() && #[trigger] effective_time_of(solves[i]) == Some(v),
    decreases solves.len(),
{
    let d = solves.drop_last();
    let r = finished_times(d);
    let last = solves.len() - 1;
    match effective_time_of(solves.last()) {
        Some(t) => {
            if v == t {
                assert(effective_time_of(solves[last]) == Some(v));
            } else {
                let k = choose|k: int|
                    0 <= k < finished_times(solves).len() && finished_times(solves)[k] == v;
                assert(r[k] == v);
                lemma_finished_comes_from_solves(d, v);
                let i = choose|i: int| 0 <= i < d.len() && #[trigger] effective_time_of(d[i]) == Some(v);
                assert(solves[i] == d[i]);
            }
        },
        None => {
            lemma_finished_comes_from_solves(d, v);
            let i = choose|i: int| 0 <= i < d.len() && #[trigger] effective_time_of(d[i]) == Some(v);
            assert(solves[i] == d[i]);
        },
    }
}

/// The ranked finished times of `solves` with one more finished solve of
/// time `t`, where `t` is at most every finished time of `solves`.
proof fn lemma_sort_with_fastest(solves: Seq<Solve>, x: Solve, t: int)
    requires
        effective_time_of(x) == Some(t),
        forall|i: int|
            0 <= i < solves.len() ==> (#[trigger] effective_time_of(solves[i]) matches Some(u) ==> t
                <= u),
    ensures
        finished_times(solves.push(x)).sort() == seq![t] + finished_times(solves).sort(),
{
    let f = finished_times(solves);
    assert(solves.push(x).drop_last() =~= solves);
    assert(finished_times(solves.push(x)) == f.push(t));
    lemma_sort_ascending(f);
    lemma_finished_bounded_low(solves, t);
    let g = seq![t] + f.sort();
    assert forall|i: int, j: int| 0 <= i < j < g.len() implies g[i] <= g[j] by {
        if i > 0 {
            assert(f.sort()[i - 1] <= f.sort()[j - 1]);
        } else {
            assert(t <= f.sort()[j - 1]);
        }
    }
    vstd::seq_lib::lemma_multiset_commutative(seq![t], f.sort());
    assert(seq![t] =~= Seq::<int>::empty().push(t));
    assert(Seq::<int>::empty().to_multiset() =~= vstd::multiset::Multiset::<int>::empty());
    assert(seq![t].to_multiset() =~= vstd::multiset::Multiset::<int>::empty().insert(t));
    assert(f.push(t).to_multiset() =~= f.to_multiset().insert(t));
    assert(g.to_multiset() =~= f.push(t).to_multiset());
    lemma_is_sort(g, f.push(t));
}

proof fn lemma_finished_bounded_low(solves: Seq<Solve>, lo: int)
    requires
        forall|i: int|
            0 <= i < solves.len() ==> (#[trigger] effective_time_of(solves[i]) matches Some(u) ==> lo
                <= u),
    ensures
        forall|k: int|
            0 <= k < finished_times(solves).sort().len() ==> lo <= #[trigger] finished_times(
                solves,
            ).sort()[k],
{
    let f = finished_times(solves);
    lemma_sort_ascending(f);
    assert forall|k: int| 0 <= k < f.sort().len() implies lo <= #[trigger] f.sort()[k] by {
        let v = f.sort()[k];
        assert(f.sort().to_multiset().count(v) > 0);
        assert(f.contains(v));
        lemma_finished_comes_from_solves(solves, v);
        let i = choose|i: int| 0 <= i < solves.len() && #[trigger] effective_time_of(solves[i]) == Some(v);
    }
}

proof fn lemma_finished_bounded_high(solves: Seq<Solve>, hi: int)
    requires
        forall|i: int|
            0 <= i < solves.len() ==> (#[trigger] effective_time_of(solves[i]) matches Some(u) ==> u
                <= hi),
    ensures
        forall|k: int|
            0 <= k < finished_times(solves).sort().len() ==> #[trigger] finished_times(
                solves,
            ).sort()[k] <= hi,
{
    let f = finished_times(solves);
    lemma_sort_ascending(f);
    assert forall|k: int| 0 <= k < f.sort().len() implies #[trigger] f.sort()[k] <= hi by {
        let v = f.sort()[k];
        assert(f.sort().to_multiset().count(v) > 0);
        assert(f.contains(v));
        lemma_finished_comes_from_solves(solves, v);
        let i = choose|i: int| 0 <= i < solves.len() && #[trigger] effective_time_of(solves[i]) == Some(v);
    }
}

/// A trimmed mean that drops at least one solve at each end does not depend
/// on how fast the fastest solve is: swapping it for another solve that is
/// still the fastest leaves the average unchanged.
pub proof fn lemma_trim_ignores_fastest(
    solves: Seq<Solve>,
    x: Solve,
    y: Solve,
    kind: AverageKind,
    tx: int,
    ty: int,
)
    requires
        trim_amount(solves.len() + 1, kind) >= 1,
        effective_time_of(x) == Some(tx),
        effective_time_of(y) == Some(ty),
        forall|i: int|
            0 <= i < solves.len() ==> (#[trigger] effective_time_of(solves[i]) matches Some(u) ==> tx
                <= u && ty <= u),
    ensures
        average_of(solves.push(x), kind) == average_of(solves.push(y), kind),
{
    let a = solves.push(x);
    let b = solves.push(y);
    assert(a.drop_last() =~= solves);
    assert(b.drop_last() =~= solves);
    assert forall|i: int| 0 <= i < solves.len() implies (#[trigger] effective_time_of(
        solves[i],
    ) matches Some(u) ==> tx <= u) by {}
    assert forall|i: int| 0 <= i < solves.len() implies (#[trigger] effective_time_of(
        solves[i],
    ) matches Some(u) ==> ty <= u) by {}
    lemma_sort_with_fastest(solves, x, tx);
    lemma_sort_with_fastest(solves, y, ty);
    let trim = trim_amount(a.len(), kind);
    let fs = finished_times(solves).sort();
    assert(dnf_count(a) == dnf_count(solves));
    assert(dnf_count(b) == dnf_count(solves));
    if a.len() >= 2 * trim + 1 && dnf_count(a) <= trim {
        lemma_counts_add_up(a);
        lemma_counts_add_up(solves);
        lemma_sort_ascending(finished_times(solves));
        assert(counted_times(a, trim) =~= counted_times(b, trim)) by {
            assert forall|k: int| 0 <= k < counted_times(a, trim).len() implies counted_times(
                a,
                trim,
            )[k] == counted_times(b, trim)[k] by {
                assert((seq![tx] + fs)[trim + k] == fs[trim + k - 1]);
                assert((seq![ty] + fs)[trim + k] == fs[trim + k - 1]);
            }
        }
    }
}


/// The ranked finished times of `solves` with one more finished solve of
/// time `t`, where `t` is at least every finished time of `solves`.
proof fn lemma_sort_with_slowest(solves: Seq<Solve>, x: Solve, t: int)
    requires
        effective_time_of(x) == Some(t),
        forall|i: int|
            0 <= i < solves.len() ==> (#[trigger] effective_time_of(solves[i]) matches Some(u) ==> u
                <= t),
    ensures
        finished_times(solves.push(x)).sort() == finished_times(solves).sort().push(t),
{
    let f = finished_times(solves);
    assert(solves.push(x).drop_last() =~= solves);
    assert(finished_times(solves.push(x)) == f.push(t));
    lemma_sort_ascending(f);
    lemma_finished_bounded_high(solves, t);
    let g = f.sort().push(t);
    assert forall|i: int, j: int| 0 <= i < j < g.len() implies g[i] <= g[j] by {
        if j < g.len() - 1 {
            assert(f.sort()[i] <= f.sort()[j]);
        } else {
            assert(f.sort()[i] <= t);
        }
    }
    assert(g.to_multiset() =~= f.sort().to_multiset().insert(t));
    assert(f.push(t).to_multiset() =~= f.to_multiset().insert(t));
    lemma_is_sort(g, f.push(t));
}

/// A trimmed mean that drops at least one solve at each end does not depend
/// on how slow the slowest solve is, when no solve is a DNF: swapping it for
/// another solve that is still the slowest leaves the average unchanged.
pub proof fn lemma_trim_ignores_slowest(
    solves: Seq<Solve>,
    x: Solve,
    y: Solve,
    kind: AverageKind,
    tx: int,
    ty: int,
)
    requires
        trim_amount(solves.len() + 1, kind) >= 1,
        effective_time_of(x) == Some(tx),
        effective_time_of(y) == Some(ty),
        forall|i: int| 0 <= i < solves.len() ==> #[trigger] effective_time_of(solves[i]) is Some,
        forall|i: int|
            0 <= i < solves.len() ==> (#[trigger] effective_time_of(solves[i]) matches Some(u) ==> u
                <= tx && u <= ty),
    ensures
        average_of(solves.push(x), kind) == average_of(solves.push(y), kind),
{
    let a = solves.push(x);
    let b = solves.push(y);
    assert(a.drop_last() =~= solves);
    assert(b.drop_last() =~= solves);
    assert forall|i: int| 0 <= i < solves.len() implies (#[trigger] effective_time_of(
        solves[i],
    ) matches Some(u) ==> u <= tx) by {}
    assert forall|i: int| 0 <= i < solves.len() implies (#[trigger] effective_time_of(
        solves[i],
    ) matches Some(u) ==> u <= ty) by {}
    lemma_sort_with_slowest(solves, x, tx);
    lemma_sort_with_slowest(solves, y, ty);
    assert forall|i: int| 0 <= i < solves.len() implies #[trigger] solves[i].penalty
        != Penalty::Dnf by {
        assert(effective_time_of(solves[i]) is Some);
    }
    lemma_no_dnf(solves);
    lemma_counts_add_up(solves);
    lemma_sort_ascending(finished_times(solves));
    let trim = trim_amount(a.len(), kind);
    let fs = finished_times(solves).sort();
    if a.len() >= 2 * trim + 1 {
        assert(counted_times(a, trim) =~= counted_times(b, trim)) by {
            assert forall|k: int| 0 <= k < counted_times(a, trim).len() implies counted_times(
                a,
                trim,
            )[k] == counted_times(b, trim)[k] by {
                assert(fs.push(tx)[trim + k] == fs[trim + k]);
                assert(fs.push(ty)[trim + k] == fs[trim + k]);
            }
        }
    }
}

/// A window is `Incomplete` exactly when fewer than `size` solves follow its
/// start; otherwise it is the average of the `size` solves from its start.
pub proof fn lemma_window_is_average_of_its_solves(
    solves: Seq<Solve>,
    index: int,
    size: int,
    kind: AverageKind,
)
    requires
        0 <= index <= solves.len(),
        0 <= size,
    ensures
        index + size <= solves.len() ==> window_average(solves, index, size, kind) == average_of(
            solves.subrange(index, index + size),
            kind,
        ),
        window_average(solves, index, size, kind) == Ok::<Average, AverageError>(
            Average::Incomplete,
        ) <==> index + size > solves.len(),
{
    lemma_average_not_incomplete(solves.subrange(index, index + size), kind);
}

// ---------------------------------------------------------------------------
// Laws of averaging
// ---------------------------------------------------------------------------

/// The order of the solves does not matter: solves that are a permutation of
/// each other have the same average, and are averaged without overflow alike.
pub proof fn lemma_average_ignores_order(a: Seq<Solve>, b: Seq<Solve>, kind: AverageKind)
    requires
        a.to_multiset() == b.to_multiset(),
    ensures
        average_of(a, kind) == average_of(b, kind),
        average_defined(a, kind) == average_defined(b, kind),
{
    assert(a.len() == a.to_multiset().len());
    assert(b.len() == b.to_multiset().len());
    lemma_permuted_parts(a, b);
    let fa = finished_times(a);
    let fb = finished_times(b);
    lemma_sort_ascending(fb);
    lemma_is_sort(fb.sort(), fa);
    if all_times_fit(a) {
        lemma_permuted_fit(a, b);
    }
    if all_times_fit(b) {
        lemma_permuted_fit(b, a);
    }
    assert(counted_times(a, trim_amount(a.len(), kind)) == counted_times(
        b,
        trim_amount(b.len(), kind),
    ));
}

/// Trimming no percentage is the plain mean.
pub proof fn lemma_no_trim_is_mean(solves: Seq<Solve>)
    ensures
        average_of(solves, AverageKind::TrimmedMean(0)) == average_of(solves, AverageKind::Mean),
        average_defined(solves, AverageKind::TrimmedMean(0)) == average_defined(
            solves,
            AverageKind::Mean,
        ),
{
    assert(solves.len() * 0 == 0) by (nonlinear_arith);
}

/// An average time lies between the fastest and the slowest of the times
/// that count (where the number of counted times fits in a `u32`).
pub proof fn lemma_average_within_counted(solves: Seq<Solve>, kind: AverageKind, t: u32)
    requires
        average_defined(solves, kind),
        average_of(solves, kind) == Ok::<Average, AverageError>(Average::Time(t)),
        solves.len() - 2 * trim_amount(solves.len(), kind) <= u32::MAX,
    ensures
        ({
            let c = counted_times(solves, trim_amount(solves.len(), kind));
            c.len() > 0 && c[0] <= t <= c.last()
        }),
{
    let len = solves.len();
    let trim = trim_amount(len, kind);
    let f = finished_times(solves);
    lemma_counts_add_up(solves);
    lemma_sort_ascending(f);
    let sorted = f.sort();
    let c = counted_times(solves, trim);
    let n: int = c.len() as int;
    assert(n == len - 2 * trim);
    let lo = c[0];
    let hi = c.last();
    assert forall|i: int| 0 <= i < c.len() implies lo <= #[trigger] c[i] <= hi by {
        if i > 0 {
            assert(sorted[trim as int] <= sorted[trim + i]);
        }
        if i < n - 1 {
            assert(sorted[trim + i] <= sorted[trim + n - 1]);
        }
    }
    lemma_sum_bounds(c, lo, hi);
    let sum = sum_of(c);
    assert(((n as u32) as int) == n);
    assert(lo <= sum / n <= hi) by (nonlinear_arith)
        requires
            n > 0,
            n * lo <= sum <= n * hi,
    ;
    assert(sum >= 0) by {
        assert(n * lo <= sum);
        assert(lo >= 0) by {
            assert(f.to_multiset().count(lo) > 0);
            lemma_finished_nonneg(solves, lo);
        }
        assert(n * lo >= 0) by (nonlinear_arith)
            requires
                n > 0,
                lo >= 0,
        ;
    }
    assert(sum / n <= u32::MAX) by (nonlinear_arith)
        requires
            n > 0,
            0 <= sum <= u32::MAX,
    ;
}

proof fn lemma_finished_nonneg(solves: Seq<Solve>, x: int)
    requires
        finished_times(solves).contains(x),
    ensures
        x >= 0,
    decreases solves.len(),
{
    if solves.len() > 0 {
        let rest = finished_times(solves.drop_last());
        match effective_time_of(solves.last()) {
            Some(t) => {
                if x != t {
                    let i = choose|i: int|
                        0 <= i < finished_times(solves).len() && finished_times(solves)[i] == x;
                    assert(rest[i] == x);
                    lemma_finished_nonneg(solves.drop_last(), x);
                }
            },
            None => {
                lemma_finished_nonneg(solves.drop_last(), x);
            },
        }
    }
}


/// Average `x` is no worse than average `y`: times compare by value, every
/// time is better than a DNF, and DNFs are alike.
pub open spec fn no_worse(x: Average, y: Average) -> bool {
    match (x, y) {
        (Average::Time(p), Average::Time(q)) => p <= q,
        (Average::Time(_), Average::Dnf) => true,
        (Average::Dnf, Average::Dnf) => true,
        _ => false,
    }
}

/// Slower solves never make an average better: where each solve of `a`
/// ranks no later than the matching solve of `b`, and both can be averaged,
/// the two fail alike (with the same error), and when both succeed the
/// average of `a` is no worse than that of `b`.
pub proof fn lemma_slower_solves_never_improve(a: Seq<Solve>, b: Seq<Solve>, kind: AverageKind)
    requires
        a.len() == b.len(),
        forall|i: int| 0 <= i < a.len() ==> !ranks_before(#[trigger] b[i], a[i]),
        average_defined(a, kind),
        average_defined(b, kind),
    ensures
        average_of(a, kind) is Err <==> average_of(b, kind) is Err,
        average_of(a, kind) is Err ==> average_of(a, kind) == average_of(b, kind),
        average_of(a, kind) matches Ok(x) ==> (average_of(b, kind) matches Ok(y) && no_worse(x, y)),
{
    let len = a.len();
    let trim = trim_amount(len, kind);
    if len >= 2 * trim + 1 {
        lemma_pointwise_parts(a, b, 0);
        if dnf_count(b) <= trim {
            lemma_counts_add_up(a);
            lemma_counts_add_up(b);
            let fa = finished_times(a);
            let fb = finished_times(b);
            lemma_sort_ascending(fa);
            lemma_sort_ascending(fb);
            let ca = counted_times(a, trim);
            let cb = counted_times(b, trim);
            assert forall|i: int| 0 <= i < ca.len() implies #[trigger] ca[i] <= cb[i] by {
                lemma_order_statistic(a, b, trim + i);
            }
            lemma_sum_pointwise(ca, cb);
            let n = (#[verifier::truncate] ((len - 2 * trim) as u32)) as int;
            let sa = sum_of(ca);
            let sb = sum_of(cb);
            assert(sa >= 0) by {
                assert forall|i: int| 0 <= i < ca.len() implies #[trigger] ca[i] >= 0 by {
                    assert(fa.sort().to_multiset().count(ca[i]) > 0);
                    assert(fa.sort()[trim + i] == ca[i]);
                    assert(fa.to_multiset().count(ca[i]) > 0);
                    lemma_finished_nonneg(a, ca[i]);
                }
                lemma_sum_nonneg(ca);
            }
            assert(sa / n <= sb / n) by (nonlinear_arith)
                requires
                    n > 0,
                    0 <= sa <= sb,
            ;
            assert(sb / n <= sb) by (nonlinear_arith)
                requires
                    n > 0,
                    0 <= sb,
            ;
            assert(0 <= sa / n) by (nonlinear_arith)
                requires
                    n > 0,
                    0 <= sa,
            ;
        }
    }
}

// ---------------------------------------------------------------------------
// Laws of a session
// ---------------------------------------------------------------------------

/// Solves recorded before the last `size` ones never change the current
/// average, nor whether it can be taken.
pub proof fn lemma_current_average_ignores_earlier(
    earlier: Seq<Solve>,
    solves: Seq<Solve>,
    size: int,
    kind: AverageKind,
)
    requires
        0 <= size <= solves.len(),
    ensures
        window_average(earlier + solves, (earlier + solves).len() - size, size, kind)
            == window_average(solves, solves.len() - size, size, kind),
        window_defined(earlier + solves, (earlier + solves).len() - size, size, kind)
            == window_defined(solves, solves.len() - size, size, kind),
{
    let all = earlier + solves;
    assert(all.subrange(all.len() - size, all.len() as int) =~= solves.subrange(
        solves.len() - size,
        solves.len() as int,
    ));
}


/// The best solve is a fastest one: no finished solve is faster, it is
/// finished whenever any solve is, and every earlier solve is slower or a
/// DNF.
pub proof fn lemma_best_solve_is_fastest(solves: Seq<Solve>, i: int)
    requires
        is_best_solve(solves, i),
    ensures
        forall|j: int|
            0 <= j < solves.len() && (#[trigger] effective_time_of(solves[j])) is Some ==> (
            effective_time_of(solves[i]) matches Some(b) && b <= effective_time_of(
                solves[j],
            )->Some_0),
        forall|j: int|
            0 <= j < i ==> (effective_time_of(solves[i]) matches Some(b) && (
            #[trigger] effective_time_of(solves[j]) matches Some(t) ==> b < t)),
{
    assert forall|j: int|
        0 <= j < solves.len() && (#[trigger] effective_time_of(solves[j])) is Some implies (
        effective_time_of(solves[i]) matches Some(b) && b <= effective_time_of(
            solves[j],
        )->Some_0) by {
        assert(!ranks_before(solves[j], solves[i]));
    }
    assert forall|j: int| 0 <= j < i implies (effective_time_of(solves[i]) matches Some(b) && (
    #[trigger] effective_time_of(solves[j]) matches Some(t) ==> b < t)) by {
        assert(ranks_before(solves[i], solves[j]));
    }
}

/// The best window has the lowest average time of all windows, has a time
/// whenever any window has one, and every earlier window with an average has
/// a higher time or a DNF.
pub proof fn lemma_best_window_is_lowest(solves: Seq<Solve>, size: int, kind: AverageKind, u: int)
    requires
        is_best_window(solves, u, size, kind),
    ensures
        forall|v: int|
            #[trigger] is_candidate(solves, v, size, kind) && window_value(solves, v, size, kind) is Time
                ==> (window_value(solves, u, size, kind) matches Average::Time(x) && x
                <= window_value(solves, v, size, kind)->Time_0),
        forall|v: int|
            0 <= v < u && #[trigger] is_candidate(solves, v, size, kind) ==> (window_value(
                solves,
                u,
                size,
                kind,
            ) matches Average::Time(x) && (window_value(solves, v, size, kind) matches Average::Time(
                y,
            ) ==> x < y)),
{
}

/// There is at most one best solve.
pub proof fn lemma_best_solve_unique(solves: Seq<Solve>, i: int, k: int)
    requires
        is_best_solve(solves, i),
        is_best_solve(solves, k),
    ensures
        i == k,
{
    if i < k {
        assert(ranks_before(solves[k], solves[i]));
    } else if k < i {
        assert(ranks_before(solves[i], solves[k]));
    }
}

/// There is at most one best window.
pub proof fn lemma_best_window_unique(
    solves: Seq<Solve>,
    size: int,
    kind: AverageKind,
    u: int,
    v: int,
)
    requires
        is_best_window(solves, u, size, kind),
        is_best_window(solves, v, size, kind),
    ensures
        u == v,
{
    if u < v {
        assert(is_candidate(solves, u, size, kind));
        assert(window_ranks_before(
            window_value(solves, v, size, kind),
            v,
            window_value(solves, u, size, kind),
            u,
        ));
    } else if v < u {
        assert(is_candidate(solves, v, size, kind));
        assert(window_ranks_before(
            window_value(solves, u, size, kind),
            u,
            window_value(solves, v, size, kind),
            v,
        ));
    }
}

/// When the last `size` solves average to a time, a best window exists, and
/// every best window averages to a time no slower than that.
pub proof fn lemma_best_average_no_worse_than_current(
    solves: Seq<Solve>,
    size: int,
    kind: AverageKind,
    t: u32,
)
    requires
        0 <= size <= solves.len(),
        window_average(solves, solves.len() - size, size, kind) == Ok::<
            Average,
            AverageError,
        >(Average::Time(t)),
    ensures
        exists|u: int| #[trigger] is_candidate(solves, u, size, kind),
        forall|u: int|
            #[trigger] is_best_window(solves, u, size, kind) ==> (window_value(
                solves,
                u,
                size,
                kind,
            ) matches Average::Time(b) && b <= t),
{
    let cur = solves.len() - size;
    if size == 0 {
        assert(solves.subrange(cur, cur) =~= Seq::<Solve>::empty());
        assert(false);
    }
    assert(is_candidate(solves, cur, size, kind));
    assert forall|u: int| #[trigger] is_best_window(solves, u, size, kind) implies (window_value(
        solves,
        u,
        size,
        kind,
    ) matches Average::Time(b) && b <= t) by {
        assert(!window_ranks_before(
            window_value(solves, cur, size, kind),
            cur,
            window_value(solves, u, size, kind),
            u,
        ));
    }
}

} // verus!
