use vstd::prelude::*;

verus! {

/// The penalty attached to a solve.
#[derive(Debug, PartialEq, Eq, Structural, Clone, Copy)]
pub enum Penalty {
    Clean,
    Plus2,
    Dnf,
}

/// One timed solve: its raw time in milliseconds and its penalty.
#[derive(Debug, PartialEq, Eq, Structural, Clone, Copy)]
pub struct Solve {
    pub time: u32,
    pub penalty: Penalty,
}

/// Milliseconds added to a solve with a `Plus2` penalty.
pub const PLUS_TWO_MS: u32 = 2000;

/// The time that counts for a solve, in milliseconds, or `None` for a DNF.
pub open spec fn effective_time_of(s: Solve) -> Option<int> {
    match s.penalty {
        Penalty::Clean => Some(s.time as int),
        Penalty::Plus2 => Some(s.time + PLUS_TWO_MS),
        Penalty::Dnf => None,
    }
}

/// The effective time of a solve can be computed in a `u32`.
pub open spec fn time_fits(s: Solve) -> bool {
    s.penalty == Penalty::Plus2 ==> s.time + PLUS_TWO_MS <= u32::MAX
}

/// Every solve of the sequence has an effective time that fits in a `u32`.
pub open spec fn all_times_fit(solves: Seq<Solve>) -> bool {
    forall|i: int| 0 <= i < solves.len() ==> #[trigger] time_fits(solves[i])
}

/// `a` ranks strictly before `b`: a finished solve ranks before a DNF, and
/// finished solves rank by effective time.
pub open spec fn ranks_before(a: Solve, b: Solve) -> bool {
    match (effective_time_of(a), effective_time_of(b)) {
        (Some(x), Some(y)) => x < y,
        (Some(_), None) => true,
        (None, _) => false,
    }
}

impl Solve {
    /// A solve of the given raw time and penalty.
    pub fn new(time: u32, penalty: Penalty) -> (s: Solve)
        ensures
            s.time == time,
            s.penalty == penalty,
    {
        Solve { time, penalty }
    }

    /// The time that counts, `None` for a DNF.
    pub fn effective_time(&self) -> (r: Option<u32>)
        requires
            time_fits(*self),
        ensures
            r matches Some(t) ==> effective_time_of(*self) == Some(t as int),
            r is None ==> effective_time_of(*self) is None,
    {
        match self.penalty {
            Penalty::Clean => Some(self.time),
            Penalty::Plus2 => Some(self.time + PLUS_TWO_MS),
            Penalty::Dnf => None,
        }
    }
}

} // verus!
