use cube_session::{Average, AverageKind, Penalty, Session, Solve};

#[test]
fn lib_add_time_adds_time() {
    let mut session = Session::default();
    let _ = session.add_time(1, Penalty::Clean);
    let solve = Solve {
        time: 1,
        penalty: Penalty::Clean,
    };
    assert_eq!(session.solves[0], solve, "did not add time");
}

#[test]
fn lib_add_times_adds_times() {
    let mut session = Session::default();
    session.add_times(vec![1, 2, 3, 4, 5]);
    assert_eq!(session.solves.len(), 5, "did not add times")
}

#[test]
fn lib_best_solve_returns_best_solve() {
    let mut session = Session::default();
    session.add_times(vec![1, 2, 3]);
    let best_solve = session.best_solve().unwrap();
    assert_eq!(
        *best_solve,
        Solve {
            time: 1,
            penalty: Penalty::Clean
        },
        "incorrect time"
    )
}

#[test]
fn lib_average_from_is_correct() {
    let mut session = Session::default();
    session.add_times(vec![1, 2, 3, 4, 5, 6, 7]);
    let average = session.average_from(1, 5, &AverageKind::Mean).unwrap();
    assert_eq!(average, Average::Time(4), "incorrect average");
}

#[test]
fn lib_average_from_incomplete_when_too_few_solves() {
    let mut session = Session::default();
    session.add_times(vec![1, 2, 3, 4, 5, 6, 7]);
    let average = session.average_from(5, 5, &AverageKind::Mean).unwrap();
    assert_eq!(average, Average::Incomplete, "incorrect average");
}

#[test]
fn lib_current_average_is_correct() {
    let mut session = Session::default();
    session.add_times(vec![1, 2, 3, 4, 5, 6, 7]);
    let average = session.current_average(5, &AverageKind::Mean).unwrap();
    assert_eq!(average, Average::Time(5), "incorrect average");
}

#[test]
fn lib_current_average_incomplete_when_too_few_solves() {
    let mut session = Session::default();
    session.add_times(vec![1, 2, 3]);
    let average = session.current_average(5, &AverageKind::Mean).unwrap();
    assert_eq!(average, Average::Incomplete, "incorrect average");
}

#[test]
fn lib_best_average_is_correct() {
    let mut session = Session::default();
    session.add_times(vec![1, 7, 5, 4, 6, 3, 2]);
    let (_, average) = session.best_average(5, &AverageKind::Mean).unwrap();
    assert_eq!(average, Average::Time(4), "incorrect average");
}

#[test]
fn main_add_time_adds_time() {
    let mut session = Session::default();
    let _ = session.add_time(1, Penalty::Clean);
    let solve = Solve {
        time: 1,
        penalty: Penalty::Clean,
    };
    assert_eq!(session.solves[0], solve, "did not add time");
}

#[test]
fn main_add_times_adds_times() {
    let mut session = Session::default();
    session.add_times(vec![1, 2, 3, 4, 5]);
    assert_eq!(session.solves.len(), 5, "did not add times")
}

#[test]
fn main_best_solve_returns_best_solve() {
    let mut session = Session::default();
    session.add_times(vec![1, 2, 3]);
    let best_solve = session.best_solve().unwrap();
    assert_eq!(
        *best_solve,
        Solve {
            time: 1,
            penalty: Penalty::Clean
        },
        "incorrect time"
    )
}

#[test]
fn main_average_from_is_correct() {
    let mut session = Session::default();
    session.add_times(vec![1, 2, 3, 4, 5, 6, 7]);
    let average = session.average_from(1, 5, &AverageKind::Mean).unwrap();
    assert_eq!(average, Average::Time(4), "incorrect average");
}

#[test]
fn main_average_from_incomplete_when_too_few_solves() {
    let mut session = Session::default();
    session.add_times(vec![1, 2, 3, 4, 5, 6, 7]);
    let average = session.average_from(5, 5, &AverageKind::Mean).unwrap();
    assert_eq!(average, Average::Incomplete, "incorrect average");
}

#[test]
fn main_current_average_is_correct() {
    let mut session = Session::default();
    session.add_times(vec![1, 2, 3, 4, 5, 6, 7]);
    let average = session.current_average(5, &AverageKind::Mean).unwrap();
    assert_eq!(average, Average::Time(5), "incorrect average");
}

#[test]
fn main_current_average_incomplete_when_too_few_solves() {
    let mut session = Session::default();
    session.add_times(vec![1, 2, 3]);
    let average = session.current_average(5, &AverageKind::Mean).unwrap();
    assert_eq!(average, Average::Incomplete, "incorrect average");
}

#[test]
fn main_best_average_is_correct() {
    let mut session = Session::default();
    session.add_times(vec![1, 7, 5, 4, 6, 3, 2]);
    let (_, average) = session.best_average(5, &AverageKind::Mean).unwrap();
    assert_eq!(average, Average::Time(4), "incorrect average");
}
