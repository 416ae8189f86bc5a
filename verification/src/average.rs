use vstd::prelude::*;

use crate::solve::{all_times_fit, effective_time_of, time_fits, Solve};

verus! {

/// Why an average could not be taken.
#[derive(Debug, PartialEq, Eq, Structural, Clone, Copy)]
pub enum AverageError {
    /// Fewer solves were given than the kind of average needs.
    NotEnoughSolves { expected: usize, found: usize },
}

/// The outcome of averaging a run of solves.
#[derive(Debug, PartialEq, Eq, Structural, Clone, Copy)]
pub enum Average {
    /// The average, in milliseconds, rounded down.
    Time(u32),
    /// A DNF is among the solves that count.
    Dnf,
    /// Not enough solves have been recorded yet.
    Incomplete,
}

/// How an average is taken.
#[derive(Debug, PartialEq, Eq, Structural, Clone, Copy)]
pub enum AverageKind {
    /// The plain mean of all solves.
    Mean,
    /// The mean once the given percentage of solves (rounded up) has been
    /// dropped at each end of the ranking.
    TrimmedMean(usize),
}

// ---------------------------------------------------------------------------
// The model
// ---------------------------------------------------------------------------

/// The effective times of the finished solves, in the order of the solves.
pub open spec fn finished_times(solves: Seq<Solve>) -> Seq<int>
    decreases solves.len(),
{
    if solves.len() == 0 {
        Seq::empty()
    } else {
        let rest = finished_times(solves.drop_last());
        match effective_time_of(solves.last()) {
            Some(t) => rest.push(t),
            None => rest,
        }
    }
}

/// The number of DNF solves.
pub open spec fn dnf_count(solves: Seq<Solve>) -> nat
    decreases solves.len(),
{
    if solves.len() == 0 {
        0
    } else {
        let rest = dnf_count(solves.drop_last());
        match effective_time_of(solves.last()) {
            Some(_) => rest,
            None => rest + 1,
        }
    }
}

/// `n / 100`, rounded up.
pub open spec fn ceil_hundredth(n: nat) -> nat {
    if n % 100 == 0 {
        n / 100
    } else {
        n / 100 + 1
    }
}

/// How many solves are dropped at each end of the ranking.
pub open spec fn trim_amount(len: nat, kind: AverageKind) -> nat {
    match kind {
        AverageKind::Mean => 0,
        AverageKind::TrimmedMean(percent) => ceil_hundredth(len * (percent as nat)),
    }
}

/// The sum of a sequence of integers.
pub open spec fn sum_of(s: Seq<int>) -> int
    decreases s.len(),
{
    if s.len() == 0 {
        0
    } else {
        sum_of(s.drop_last()) + s.last()
    }
}

/// The finished times that count once `trim` solves are dropped at each end
/// of the ranking (finished solves by time, then the DNFs).
pub open spec fn counted_times(solves: Seq<Solve>, trim: nat) -> Seq<int> {
    finished_times(solves).sort().subrange(trim as int, solves.len() - trim)
}

/// The average of a run of solves.
///
/// With `trim` solves dropped at each end of the ranking, at least
/// `2 * trim + 1` solves are needed. A DNF ranks behind every finished solve,
/// so a DNF is among the counted solves exactly when more than `trim` solves
/// are DNFs. Otherwise the result is the sum of the counted times divided by
/// their number (taken as a `u32`), rounded down.
pub open spec fn average_of(solves: Seq<Solve>, kind: AverageKind) -> Result<Average, AverageError> {
    let len = solves.len();
    let trim = trim_amount(len, kind);
    if len < 2 * trim + 1 {
        Err(AverageError::NotEnoughSolves { expected: (2 * trim + 1) as usize, found: len as usize })
    } else if dnf_count(solves) > trim {
        Ok(Average::Dnf)
    } else {
        let count = (len - 2 * trim) as u32;
        Ok(Average::Time((sum_of(counted_times(solves, trim)) / (count as int)) as u32))
    }
}

/// The inputs on which averaging runs without an arithmetic overflow or a
/// division by zero.
pub open spec fn average_defined(solves: Seq<Solve>, kind: AverageKind) -> bool {
    let len = solves.len();
    let trim = trim_amount(len, kind);
    &&& (kind matches AverageKind::TrimmedMean(percent) ==> len * percent <= usize::MAX)
    &&& 2 * trim + 1 <= usize::MAX
    &&& len >= 2 * trim + 1 ==> all_times_fit(solves)
    &&& (len >= 2 * trim + 1 && dnf_count(solves) <= trim) ==> {
        &&& sum_of(counted_times(solves, trim)) <= u32::MAX
        &&& (len - 2 * trim) as u32 != 0
    }
}

/// The integers that a sequence of `u32` stands for.
pub open spec fn as_ints(s: Seq<u32>) -> Seq<int> {
    s.map_values(|t: u32| t as int)
}

spec fn int_leq() -> spec_fn(int, int) -> bool {
    |x: int, y: int| x <= y
}

// ---------------------------------------------------------------------------
// Lemmas
// ---------------------------------------------------------------------------

/// Every solve is either finished or a DNF.
pub proof fn lemma_counts_add_up(solves: Seq<Solve>)
    ensures
        finished_times(solves).len() + dnf_count(solves) == solves.len(),
    decreases solves.len(),
{
    if solves.len() > 0 {
        lemma_counts_add_up(solves.drop_last());
    }
}

proof fn lemma_sum_prefix_le(s: Seq<int>, k: int)
    requires
        0 <= k <= s.len(),
        forall|i: int| 0 <= i < s.len() ==> s[i] >= 0,
    ensures
        sum_of(s.take(k)) <= sum_of(s),
    decreases s.len(),
{
    if k < s.len() {
        lemma_sum_prefix_le(s.drop_last(), k);
        assert(s.drop_last().take(k) =~= s.take(k));
    } else {
        assert(s.take(k) =~= s);
    }
}

proof fn lemma_int_leq_total()
    ensures
        vstd::relations::total_ordering(int_leq()),
{
}

/// `s.sort()` is ascending and holds the elements of `s`.
pub proof fn lemma_sort_ascending(s: Seq<int>)
    ensures
        forall|i: int, j: int| 0 <= i < j < s.sort().len() ==> s.sort()[i] <= s.sort()[j],
        s.sort().to_multiset() == s.to_multiset(),
        s.sort().len() == s.len(),
{
    s.lemma_sort_ensures();
    let leq = int_leq();
    assert forall|i: int, j: int| 0 <= i < j < s.sort().len() implies s.sort()[i] <= s.sort()[j] by {
        assert(vstd::relations::sorted_by(s.sort(), |x: int, y: int| x <= y));
        assert(leq(s.sort()[i], s.sort()[j]));
    }
    vstd::seq_lib::to_multiset_len(s);
    vstd::seq_lib::to_multiset_len(s.sort());
}

/// A sorted sequence with the multiset of `s` is `s.sort()`.
pub proof fn lemma_is_sort(g: Seq<int>, s: Seq<int>)
    requires
        forall|i: int, j: int| 0 <= i < j < g.len() ==> g[i] <= g[j],
        g.to_multiset() == s.to_multiset(),
    ensures
        g == s.sort(),
{
    s.lemma_sort_ensures();
    let leq = int_leq();
    lemma_int_leq_total();
    assert(vstd::relations::sorted_by(g, leq));
    assert(vstd::relations::sorted_by(s.sort(), leq)) by {
        assert forall|i: int, j: int| 0 <= i < j < s.sort().len() implies #[trigger] leq(
            s.sort()[i],
            s.sort()[j],
        ) by {
            assert(vstd::relations::sorted_by(s.sort(), |x: int, y: int| x <= y));
        }
    }
    vstd::seq_lib::lemma_sorted_unique(g, s.sort(), leq);
}

// ---------------------------------------------------------------------------
// Code
// ---------------------------------------------------------------------------

/// `n / 100`, rounded up.
fn div_ceil_hundred(n: usize) -> (r: usize)
    ensures
        r == ceil_hundredth(n as nat),
{
    if n % 100 == 0 {
        n / 100
    } else {
        n / 100 + 1
    }
}

/// The effective times of the finished solves in ascending order, and the
/// number of DNFs.
fn ranked_finished_times(solves: &[Solve]) -> (r: (Vec<u32>, usize))
    requires
        all_times_fit(solves@),
    ensures
        as_ints(r.0@) == finished_times(solves@).sort(),
        r.1 == dnf_count(solves@),
        r.0.len() + r.1 == solves.len(),
{
    let mut times: Vec<u32> = Vec::new();
    let mut dnfs: usize = 0;
    let mut i: usize = 0;
    proof {
        assert(as_ints(times@) =~= Seq::<int>::empty());
        assert(solves@.take(0) =~= Seq::<Solve>::empty());
    }
    while i < solves.len()
        invariant
            i <= solves.len(),
            all_times_fit(solves@),
            forall|a: int, b: int| 0 <= a < b < times.len() ==> times@[a] <= times@[b],
            as_ints(times@).to_multiset() == finished_times(solves@.take(i as int)).to_multiset(),
            dnfs == dnf_count(solves@.take(i as int)),
            times.len() + dnfs == i,
        decreases solves.len() - i,
    {
        proof {
            assert(solves@.take(i + 1).drop_last() =~= solves@.take(i as int));
            assert(time_fits(solves@[i as int]));
        }
        let s = solves[i];
        match s.effective_time() {
            Some(t) => {
                let mut p: usize = 0;
                while p < times.len() && times[p] <= t
                    invariant
                        p <= times.len(),
                        forall|k: int| 0 <= k < p ==> times@[k] <= t,
                    decreases times.len() - p,
                {
                    p = p + 1;
                }
                let ghost old_times = times@;
                times.insert(p, t);
                proof {
                    assert(as_ints(times@) =~= as_ints(old_times).insert(p as int, t as int));
                    vstd::seq_lib::to_multiset_insert(as_ints(old_times), p as int, t as int);
                    vstd::seq_lib::to_multiset_build(
                        finished_times(solves@.take(i as int)),
                        t as int,
                    );
                    assert forall|a: int, b: int| 0 <= a < b < times.len() implies times@[a]
                        <= times@[b] by {
                        if b < p {
                        } else if b == p {
                        } else if a < p {
                            assert(old_times[b - 1] > t);
                        } else if a == p {
                            assert(old_times[b - 1] > t);
                        } else {
                        }
                    }
                }
            },
            None => {
                dnfs = dnfs + 1;
            },
        }
        i = i + 1;
    }
    proof {
        assert(solves@.take(solves.len() as int) =~= solves@);
        lemma_counts_add_up(solves@);
        lemma_is_sort(as_ints(times@), finished_times(solves@));
    }
    (times, dnfs)
}

/// The sum of `times[lo..hi]`.
fn sum_between(times: &Vec<u32>, lo: usize, hi: usize) -> (r: u32)
    requires
        lo <= hi <= times.len(),
        sum_of(as_ints(times@).subrange(lo as int, hi as int)) <= u32::MAX,
    ensures
        r == sum_of(as_ints(times@).subrange(lo as int, hi as int)),
{
    let ghost whole = as_ints(times@).subrange(lo as int, hi as int);
    let mut acc: u32 = 0;
    let mut j: usize = lo;
    while j < hi
        invariant
            lo <= j <= hi <= times.len(),
            whole == as_ints(times@).subrange(lo as int, hi as int),
            sum_of(whole) <= u32::MAX,
            acc == sum_of(as_ints(times@).subrange(lo as int, j as int)),
        decreases hi - j,
    {
        proof {
            let next = as_ints(times@).subrange(lo as int, j + 1);
            assert(next.drop_last() =~= as_ints(times@).subrange(lo as int, j as int));
            assert(next =~= whole.take(j + 1 - lo));
            lemma_sum_prefix_le(whole, j + 1 - lo);
        }
        acc = acc + times[j];
        j = j + 1;
    }
    acc
}

/// Averages a run of solves.
pub fn average(solves: &[Solve], kind: &AverageKind) -> (r: Result<Average, AverageError>)
    requires
        average_defined(solves@, *kind),
    ensures
        r == average_of(solves@, *kind),
{
    let len = solves.len();
    let trim: usize = match kind {
        AverageKind::Mean => 0,
        AverageKind::TrimmedMean(amount) => div_ceil_hundred(len * *amount),
    };
    if len < trim * 2 + 1 {
        return Err(AverageError::NotEnoughSolves { expected: trim * 2 + 1, found: len });
    }
    let (times, dnfs) = ranked_finished_times(solves);
    if dnfs > trim {
        return Ok(Average::Dnf);
    }
    let sum = sum_between(&times, trim, len - trim);
    let count = (len - trim * 2) as u32;
    Ok(Average::Time(sum / count))
}

} // verus!
