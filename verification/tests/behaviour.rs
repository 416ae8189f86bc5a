use cube_session::{average, Average, AverageError, AverageKind, Penalty, Session, Solve};

fn clean(times: &[u32]) -> Vec<Solve> {
    times.iter().map(|t| Solve::new(*t, Penalty::Clean)).collect()
}

// ----- Solve -----

#[test]
fn effective_time_by_penalty() {
    assert_eq!(Solve::new(1500, Penalty::Clean).effective_time(), Some(1500));
    assert_eq!(Solve::new(1500, Penalty::Plus2).effective_time(), Some(3500));
    assert_eq!(Solve::new(1500, Penalty::Dnf).effective_time(), None);
}

#[test]
fn display_under_a_minute() {
    assert_eq!(Solve::new(5007, Penalty::Clean).to_display_string(), "5.007");
    assert_eq!(Solve::new(0, Penalty::Clean).to_display_string(), "0.000");
    assert_eq!(Solve::new(59999, Penalty::Clean).to_display_string(), "59.999");
}

#[test]
fn display_with_minutes() {
    assert_eq!(Solve::new(83456, Penalty::Clean).to_display_string(), "1:23.456");
    assert_eq!(Solve::new(600000, Penalty::Clean).to_display_string(), "10:00.000");
    assert_eq!(Solve::new(60005, Penalty::Clean).to_display_string(), "1:00.005");
}

#[test]
fn display_penalties() {
    assert_eq!(Solve::new(83456, Penalty::Plus2).to_display_string(), "1:23.456+");
    assert_eq!(Solve::new(12345, Penalty::Dnf).to_display_string(), "DNF(12.345)");
}

// ----- average -----

#[test]
fn plus_two_counts_two_more_seconds() {
    let solves = vec![
        Solve::new(1000, Penalty::Plus2),
        Solve::new(3000, Penalty::Clean),
        Solve::new(5000, Penalty::Clean),
    ];
    assert_eq!(average(&solves, &AverageKind::Mean), Ok(Average::Time(3666)));
}

#[test]
fn mean_rounds_down() {
    assert_eq!(average(&clean(&[1, 2]), &AverageKind::Mean), Ok(Average::Time(1)));
}

#[test]
fn mean_with_a_dnf_is_dnf() {
    let mut solves = clean(&[1, 2]);
    solves.push(Solve::new(3, Penalty::Dnf));
    assert_eq!(average(&solves, &AverageKind::Mean), Ok(Average::Dnf));
}

#[test]
fn trimmed_mean_drops_both_ends() {
    let solves = clean(&[100, 1, 50, 40, 30]);
    assert_eq!(average(&solves, &AverageKind::TrimmedMean(5)), Ok(Average::Time(40)));
}

#[test]
fn trimmed_mean_drops_a_single_dnf() {
    let mut solves = vec![Solve::new(7, Penalty::Dnf)];
    solves.extend(clean(&[1, 2, 3, 4]));
    assert_eq!(average(&solves, &AverageKind::TrimmedMean(5)), Ok(Average::Time(3)));
}

#[test]
fn trim_rounds_up() {
    // 12 solves at 10 percent: 1.2 rounds up to 2 dropped at each end.
    let solves = clean(&[1, 2, 3, 4, 5, 6, 7, 8, 9, 10, 11, 1000]);
    assert_eq!(average(&solves, &AverageKind::TrimmedMean(10)), Ok(Average::Time(6)));
}

#[test]
fn error_reports_needed_and_found() {
    let solves = clean(&[12, 13]);
    assert_eq!(
        average(&solves, &AverageKind::TrimmedMean(5)),
        Err(AverageError::NotEnoughSolves { expected: 3, found: 2 })
    );
    assert_eq!(
        average(&[], &AverageKind::Mean),
        Err(AverageError::NotEnoughSolves { expected: 1, found: 0 })
    );
    assert_eq!(
        average(&clean(&[1, 2, 3, 4, 5]), &AverageKind::TrimmedMean(100)),
        Err(AverageError::NotEnoughSolves { expected: 11, found: 5 })
    );
}

#[test]
fn order_does_not_matter() {
    let a = clean(&[9, 3, 7, 1, 5]);
    let b = clean(&[1, 3, 5, 7, 9]);
    for kind in [AverageKind::Mean, AverageKind::TrimmedMean(5), AverageKind::TrimmedMean(30)] {
        assert_eq!(average(&a, &kind), average(&b, &kind));
    }
}

#[test]
fn no_trim_is_mean() {
    let solves = clean(&[4, 8, 15, 16, 23, 42]);
    assert_eq!(
        average(&solves, &AverageKind::TrimmedMean(0)),
        average(&solves, &AverageKind::Mean)
    );
}

#[test]
fn average_lies_between_counted_times() {
    let solves = clean(&[10, 1000, 20, 30, 31]);
    match average(&solves, &AverageKind::TrimmedMean(5)).unwrap() {
        Average::Time(t) => assert!(20 <= t && t <= 31),
        other => panic!("unexpected {:?}", other),
    }
}

// ----- Session -----

#[test]
fn add_times_keeps_order_and_marks_clean() {
    let mut session = Session::default();
    session.add_time(9, Penalty::Dnf);
    session.add_times(vec![3, 1, 2]);
    assert_eq!(
        session.solves,
        vec![
            Solve::new(9, Penalty::Dnf),
            Solve::new(3, Penalty::Clean),
            Solve::new(1, Penalty::Clean),
            Solve::new(2, Penalty::Clean),
        ]
    );
}

#[test]
fn best_solve_of_empty_session_is_none() {
    let session = Session::default();
    assert!(session.best_solve().is_none());
}

#[test]
fn best_solve_prefers_finished_and_counts_penalty() {
    let mut session = Session::default();
    session.add_time(100, Penalty::Dnf);
    session.add_time(500, Penalty::Plus2);
    session.add_time(2400, Penalty::Clean);
    assert_eq!(*session.best_solve().unwrap(), Solve::new(2400, Penalty::Clean));
}

#[test]
fn best_solve_first_of_equals() {
    let mut session = Session::default();
    session.add_time(3000, Penalty::Clean);
    session.add_time(0, Penalty::Plus2);
    session.add_time(2000, Penalty::Clean);
    assert_eq!(*session.best_solve().unwrap(), Solve::new(0, Penalty::Plus2));
}

#[test]
fn best_solve_all_dnf_is_first() {
    let mut session = Session::default();
    session.add_time(5, Penalty::Dnf);
    session.add_time(1, Penalty::Dnf);
    assert_eq!(*session.best_solve().unwrap(), Solve::new(5, Penalty::Dnf));
}

#[test]
fn best_average_none_when_too_few() {
    let mut session = Session::default();
    session.add_times(vec![1, 2]);
    assert_eq!(session.best_average(3, &AverageKind::Mean), None);
    assert_eq!(session.best_average(0, &AverageKind::Mean), None);
}

#[test]
fn best_average_reports_first_lowest_window() {
    let mut session = Session::default();
    session.add_times(vec![5, 1, 3, 3, 1, 5]);
    // windows of 3: 9/3, 7/3, 7/3, 9/3 -> 3, 2, 2, 3
    assert_eq!(session.best_average(3, &AverageKind::Mean), Some((1, Average::Time(2))));
}

#[test]
fn best_average_time_beats_dnf() {
    let mut session = Session::default();
    session.add_time(1, Penalty::Dnf);
    session.add_times(vec![100, 100]);
    assert_eq!(session.best_average(2, &AverageKind::Mean), Some((1, Average::Time(100))));
}

#[test]
fn best_average_first_dnf_when_all_dnf() {
    let mut session = Session::default();
    session.add_time(1, Penalty::Dnf);
    session.add_time(2, Penalty::Dnf);
    session.add_time(3, Penalty::Dnf);
    assert_eq!(session.best_average(2, &AverageKind::Mean), Some((0, Average::Dnf)));
}

#[test]
fn best_average_no_worse_than_current() {
    let mut session = Session::default();
    session.add_times(vec![9, 2, 4, 8, 7, 6]);
    let current = session.current_average(3, &AverageKind::Mean).unwrap();
    let (_, best) = session.best_average(3, &AverageKind::Mean).unwrap();
    match (best, current) {
        (Average::Time(b), Average::Time(c)) => assert!(b <= c),
        other => panic!("unexpected {:?}", other),
    }
}

#[test]
fn current_average_is_average_from_last_window() {
    let mut session = Session::default();
    session.add_times(vec![3, 9, 4, 1, 8]);
    assert_eq!(
        session.current_average(4, &AverageKind::TrimmedMean(5)),
        session.average_from(1, 4, &AverageKind::TrimmedMean(5))
    );
}

#[test]
fn trimmed_window_errors_pass_through() {
    let mut session = Session::default();
    session.add_times(vec![1, 2]);
    assert_eq!(
        session.average_from(0, 2, &AverageKind::TrimmedMean(5)),
        Err(AverageError::NotEnoughSolves { expected: 3, found: 2 })
    );
}

// ----- added behaviour -----

#[test]
fn error_message_text() {
    let err = AverageError::NotEnoughSolves { expected: 3, found: 2 };
    assert_eq!(err.to_display_string(), "need at least 3 solves, received 2");
    let err = AverageError::NotEnoughSolves { expected: 101, found: 0 };
    assert_eq!(err.to_display_string(), "need at least 101 solves, received 0");
}

#[test]
fn error_message_from_average() {
    let err = average(&clean(&[12, 13]), &AverageKind::TrimmedMean(5)).unwrap_err();
    assert_eq!(err.to_display_string(), "need at least 3 solves, received 2");
}

#[test]
fn sessions_compare_by_solves() {
    let mut a = Session::default();
    let mut b = Session::default();
    a.add_times(vec![1, 2]);
    b.add_time(1, Penalty::Clean);
    b.add_time(2, Penalty::Clean);
    assert_eq!(a, b);
    b.add_time(3, Penalty::Dnf);
    assert_ne!(a, b);
}

#[test]
fn slower_solves_never_improve() {
    let fast = clean(&[10, 20, 30, 40, 50]);
    let mut slow = clean(&[11, 20, 35, 40, 90]);
    assert_eq!(average(&fast, &AverageKind::Mean), Ok(Average::Time(30)));
    assert_eq!(average(&slow, &AverageKind::Mean), Ok(Average::Time(39)));
    slow[0] = Solve::new(10, Penalty::Plus2);
    assert_eq!(average(&slow, &AverageKind::TrimmedMean(5)), Ok(Average::Time(55)));
    assert_eq!(average(&fast, &AverageKind::TrimmedMean(5)), Ok(Average::Time(30)));
    slow[1] = Solve::new(20, Penalty::Dnf);
    slow[2] = Solve::new(35, Penalty::Dnf);
    assert_eq!(average(&slow, &AverageKind::TrimmedMean(5)), Ok(Average::Dnf));
}

#[test]
fn earlier_solves_do_not_change_current_average() {
    let mut a = Session::default();
    a.add_times(vec![4, 5, 6]);
    let mut b = Session::default();
    b.add_time(1, Penalty::Dnf);
    b.add_times(vec![100, 4, 5, 6]);
    assert_eq!(
        a.current_average(3, &AverageKind::Mean),
        b.current_average(3, &AverageKind::Mean)
    );
}
