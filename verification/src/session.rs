use vstd::prelude::*;

use crate::average::{average, average_defined, average_of, Average, AverageError, AverageKind};
use crate::solve::{all_times_fit, effective_time_of, ranks_before, time_fits, Penalty, Solve};

verus! {

/// A session: the solves recorded so far, oldest first.
#[derive(Debug, PartialEq)]
pub struct Session {
    pub solves: Vec<Solve>,
}

// ---------------------------------------------------------------------------
// The model
// ---------------------------------------------------------------------------

/// A clean solve of the given time.
pub open spec fn clean_solve(time: u32) -> Solve {
    Solve { time, penalty: Penalty::Clean }
}

/// `solves[i]` is the best solve: no solve ranks before it, and it ranks
/// before every earlier solve (the first of equally ranked best solves).
pub open spec fn is_best_solve(solves: Seq<Solve>, i: int) -> bool {
    &&& 0 <= i < solves.len()
    &&& forall|j: int| 0 <= j < solves.len() ==> !ranks_before(#[trigger] solves[j], solves[i])
    &&& forall|j: int| 0 <= j < i ==> ranks_before(solves[i], #[trigger] solves[j])
}

/// The average of the `size` solves from `index` on, or `Incomplete` when
/// fewer than `size` solves follow `index`.
pub open spec fn window_average(solves: Seq<Solve>, index: int, size: int, kind: AverageKind) -> Result<
    Average,
    AverageError,
> {
    if solves.len() - index < size {
        Ok(Average::Incomplete)
    } else {
        average_of(solves.subrange(index, index + size), kind)
    }
}

/// The window from `index` on can be averaged without an overflow.
pub open spec fn window_defined(solves: Seq<Solve>, index: int, size: int, kind: AverageKind) -> bool {
    solves.len() - index >= size ==> average_defined(solves.subrange(index, index + size), kind)
}

/// The average of a window, with an error counted as `Incomplete`.
pub open spec fn window_value(solves: Seq<Solve>, index: int, size: int, kind: AverageKind) -> Average {
    match window_average(solves, index, size, kind) {
        Ok(a) => a,
        Err(_) => Average::Incomplete,
    }
}

/// A window that has a time or a DNF as its average.
pub open spec fn is_candidate(solves: Seq<Solve>, index: int, size: int, kind: AverageKind) -> bool {
    let a = window_value(solves, index, size, kind);
    &&& 0 <= index < solves.len()
    &&& (a is Time || a is Dnf)
}

/// The average `a` of the window at `u` ranks strictly before the average `b`
/// of the window at `v`: times by value then by position, every time before a
/// DNF, and DNFs all alike.
pub open spec fn window_ranks_before(a: Average, u: int, b: Average, v: int) -> bool {
    match (a, b) {
        (Average::Time(x), Average::Time(y)) => x < y || (x == y && u < v),
        (Average::Time(_), Average::Dnf) => true,
        _ => false,
    }
}

/// The window at `u` is the best window: no candidate ranks before it, and it
/// ranks before every earlier candidate.
pub open spec fn is_best_window(solves: Seq<Solve>, u: int, size: int, kind: AverageKind) -> bool {
    &&& is_candidate(solves, u, size, kind)
    &&& forall|v: int|
        #![trigger is_candidate(solves, v, size, kind)]
        is_candidate(solves, v, size, kind) ==> !window_ranks_before(
            window_value(solves, v, size, kind),
            v,
            window_value(solves, u, size, kind),
            u,
        )
    &&& forall|v: int|
        #![trigger is_candidate(solves, v, size, kind)]
        0 <= v < u && is_candidate(solves, v, size, kind) ==> window_ranks_before(
            window_value(solves, u, size, kind),
            u,
            window_value(solves, v, size, kind),
            v,
        )
}

// ---------------------------------------------------------------------------
// Code
// ---------------------------------------------------------------------------

impl Default for Session {
    fn default() -> (s: Self)
        ensures
            s.solves@ == Seq::<Solve>::empty(),
    {
        Session { solves: Vec::new() }
    }
}

/// Whether effective time `a` ranks strictly before effective time `b`.
fn key_before(a: Option<u32>, b: Option<u32>) -> (r: bool)
    ensures
        r == match (a, b) {
            (Some(x), Some(y)) => x < y,
            (Some(_), None) => true,
            (None, _) => false,
        },
{
    match (a, b) {
        (Some(x), Some(y)) => x < y,
        (Some(_), None) => true,
        (None, _) => false,
    }
}

impl Session {
    /// Records a solve.
    pub fn add_time(&mut self, time: u32, penalty: Penalty)
        ensures
            final(self).solves@ == old(self).solves@.push(Solve { time, penalty }),
    {
        let solve = Solve { time, penalty };
        self.solves.push(solve);
    }

    /// Records clean solves of the given times, in order.
    pub fn add_times(&mut self, times: Vec<u32>)
        ensures
            final(self).solves@ == old(self).solves@ + times@.map_values(|t: u32| clean_solve(t)),
    {
        let ghost start = self.solves@;
        let mut i: usize = 0;
        while i < times.len()
            invariant
                i <= times.len(),
                self.solves@ == start + times@.take(i as int).map_values(|t: u32| clean_solve(t)),
            decreases times.len() - i,
        {
            self.add_time(times[i], Penalty::Clean);
            proof {
                assert(times@.take(i + 1).map_values(|t: u32| clean_solve(t)) =~= times@.take(
                    i as int,
                ).map_values(|t: u32| clean_solve(t)).push(clean_solve(times@[i as int])));
            }
            i = i + 1;
        }
        proof {
            assert(times@.take(times.len() as int) =~= times@);
        }
    }

    /// The best solve: the fastest finished one, the first of equal ones, or
    /// the first solve when all are DNFs.
    pub fn best_solve(&self) -> (r: Option<&Solve>)
        requires
            all_times_fit(self.solves@),
        ensures
            r is None <==> self.solves@.len() == 0,
            r matches Some(b) ==> exists|i: int|
                is_best_solve(self.solves@, i) && *b == #[trigger] self.solves@[i],
    {
        let len = self.solves.len();
        if len == 0 {
            return None;
        }
        proof {
            assert(time_fits(self.solves@[0]));
        }
        let mut best: usize = 0;
        let mut best_key = self.solves[0].effective_time();
        let mut i: usize = 1;
        while i < len
            invariant
                len == self.solves@.len(),
                all_times_fit(self.solves@),
                best < i <= len,
                match best_key {
                    Some(t) => effective_time_of(self.solves@[best as int]) == Some(t as int),
                    None => effective_time_of(self.solves@[best as int]) is None,
                },
                forall|j: int| 0 <= j < i ==> !ranks_before(#[trigger] self.solves@[j], self.solves@[best as int]),
                forall|j: int| 0 <= j < best ==> ranks_before(self.solves@[best as int], #[trigger] self.solves@[j]),
            decreases len - i,
        {
            proof {
                assert(time_fits(self.solves@[i as int]));
            }
            let key = self.solves[i].effective_time();
            if key_before(key, best_key) {
                best = i;
                best_key = key;
            }
            i = i + 1;
        }
        Some(&self.solves[best])
    }

    /// The average of the `size` solves from `index` on, or `Incomplete` when
    /// fewer follow.
    pub fn average_from(&self, index: usize, size: usize, kind: &AverageKind) -> (r: Result<
        Average,
        AverageError,
    >)
        requires
            index <= self.solves@.len(),
            window_defined(self.solves@, index as int, size as int, *kind),
        ensures
            r == window_average(self.solves@, index as int, size as int, *kind),
    {
        if self.solves.len() - index < size {
            return Ok(Average::Incomplete);
        }
        average(&self.solves.as_slice()[index..index + size], kind)
    }

    /// The average of the last `size` solves, or `Incomplete` when fewer have
    /// been recorded.
    pub fn current_average(&self, size: usize, kind: &AverageKind) -> (r: Result<
        Average,
        AverageError,
    >)
        requires
            size <= self.solves@.len() ==> window_defined(
                self.solves@,
                self.solves@.len() - size,
                size as int,
                *kind,
            ),
        ensures
            r == (if self.solves@.len() < size {
                Ok(Average::Incomplete)
            } else {
                window_average(self.solves@, self.solves@.len() - size, size as int, *kind)
            }),
    {
        if self.solves.len() < size {
            return Ok(Average::Incomplete);
        }
        self.average_from(self.solves.len() - size, size, kind)
    }

    /// The best average over all windows of `size` consecutive solves, with
    /// the position of its window: the lowest time (the first window among
    /// equal ones), else the first DNF window; `None` when no window has a
    /// time or a DNF.
    pub fn best_average(&self, size: usize, kind: &AverageKind) -> (r: Option<(usize, Average)>)
        requires
            forall|u: int|
                0 <= u < self.solves@.len() ==> #[trigger] window_defined(
                    self.solves@,
                    u,
                    size as int,
                    *kind,
                ),
        ensures
            r is None <==> !exists|u: int| #[trigger]
                is_candidate(self.solves@, u, size as int, *kind),
            r matches Some((u, a)) ==> is_best_window(self.solves@, u as int, size as int, *kind)
                && a == window_value(self.solves@, u as int, size as int, *kind),
    {
        let ghost solves = self.solves@;
        let ghost sz = size as int;
        let len = self.solves.len();
        let mut best: Option<(usize, Average)> = None;
        let mut u: usize = 0;
        while u < len
            invariant
                len == solves.len(),
                solves == self.solves@,
                sz == size as int,
                u <= len,
                forall|w: int|
                    0 <= w < solves.len() ==> #[trigger] window_defined(solves, w, sz, *kind),
                best is None ==> forall|v: int|
                    0 <= v < u ==> !#[trigger] is_candidate(solves, v, sz, *kind),
                best matches Some((b, a)) ==> {
                    &&& b < u
                    &&& is_candidate(solves, b as int, sz, *kind)
                    &&& a == window_value(solves, b as int, sz, *kind)
                    &&& forall|v: int|
                        #![trigger is_candidate(solves, v, sz, *kind)]
                        0 <= v < u && is_candidate(solves, v, sz, *kind) ==> !window_ranks_before(
                            window_value(solves, v, sz, *kind),
                            v,
                            a,
                            b as int,
                        )
                    &&& forall|v: int|
                        #![trigger is_candidate(solves, v, sz, *kind)]
                        0 <= v < b && is_candidate(solves, v, sz, *kind) ==> window_ranks_before(
                            a,
                            b as int,
                            window_value(solves, v, sz, *kind),
                            v,
                        )
                },
            decreases len - u,
        {
            proof {
                assert(window_defined(solves, u as int, sz, *kind));
            }
            let r = self.average_from(u, size, kind);
            let cur: Option<Average> = match r {
                Ok(Average::Time(t)) => Some(Average::Time(t)),
                Ok(Average::Dnf) => Some(Average::Dnf),
                _ => None,
            };
            match cur {
                Some(a) => {
                    let take = match best {
                        None => true,
                        Some((_, Average::Time(bt))) => match a {
                            Average::Time(t) => t < bt,
                            _ => false,
                        },
                        Some((_, _)) => match a {
                            Average::Time(_) => true,
                            _ => false,
                        },
                    };
                    if take {
                        best = Some((u, a));
                    }
                },
                None => {},
            }
            u = u + 1;
        }
        best
    }
}

} // verus!
