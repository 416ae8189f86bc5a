use cube_session::{average, Average, AverageError, AverageKind, Penalty, Solve};

#[test]
fn average_average_trimmed_mean_is_correct() {
    let solves = vec![
        Solve::new(12, Penalty::Clean),
        Solve::new(13, Penalty::Clean),
        Solve::new(14, Penalty::Clean),
        Solve::new(16, Penalty::Clean),
        Solve::new(999, Penalty::Dnf),
    ];
    let average: Average = average(&solves, &AverageKind::TrimmedMean(5)).unwrap();
    assert_eq!(average, Average::Time(14), "incorrect average");
}

#[test]
fn average_average_mean_is_correct() {
    let solves = vec![
        Solve::new(12, Penalty::Clean),
        Solve::new(13, Penalty::Clean),
        Solve::new(17, Penalty::Clean),
    ];
    let average: Average = average(&solves, &AverageKind::Mean).unwrap();
    assert_eq!(average, Average::Time(14), "incorrect average");
}

#[test]
fn average_average_is_dnf_with_multiple_dnf_solves() {
    let solves = vec![
        Solve::new(12, Penalty::Clean),
        Solve::new(13, Penalty::Clean),
        Solve::new(14, Penalty::Dnf),
        Solve::new(16, Penalty::Clean),
        Solve::new(999, Penalty::Dnf),
    ];
    let average = average(&solves, &AverageKind::TrimmedMean(5)).unwrap();
    assert!(matches!(average, Average::Dnf), "should have returned DNF");
}

#[test]
fn average_average_errors_when_too_few_solves() {
    let solves = vec![Solve::new(12, Penalty::Clean), Solve::new(13, Penalty::Clean)];
    let result = average(&solves, &AverageKind::TrimmedMean(5));
    assert!(
        matches!(
            result,
            Err(AverageError::NotEnoughSolves {
                expected: _,
                found: _
            })
        ),
        "should have returned NotEnoughSolves error",
    );
}

#[test]
fn main_average_trimmed_mean_is_correct() {
    let solves = vec![
        Solve::new(12, Penalty::Clean),
        Solve::new(13, Penalty::Clean),
        Solve::new(14, Penalty::Clean),
        Solve::new(16, Penalty::Clean),
        Solve::new(999, Penalty::Dnf),
    ];
    let average: Average = average(&solves, &AverageKind::TrimmedMean(5)).unwrap();
    assert_eq!(average, Average::Time(14), "incorrect average");
}

#[test]
fn main_average_mean_is_correct() {
    let solves = vec![
        Solve::new(12, Penalty::Clean),
        Solve::new(13, Penalty::Clean),
        Solve::new(17, Penalty::Clean),
    ];
    let average: Average = average(&solves, &AverageKind::Mean).unwrap();
    assert_eq!(average, Average::Time(14), "incorrect average");
}

#[test]
fn main_average_is_dnf_with_multiple_dnf_solves() {
    let solves = vec![
        Solve::new(12, Penalty::Clean),
        Solve::new(13, Penalty::Clean),
        Solve::new(14, Penalty::Dnf),
        Solve::new(16, Penalty::Clean),
        Solve::new(999, Penalty::Dnf),
    ];
    let average = average(&solves, &AverageKind::TrimmedMean(5)).unwrap();
    assert!(matches!(average, Average::Dnf), "should have returned DNF");
}

#[test]
fn main_average_errors_when_too_few_solves() {
    let solves = vec![Solve::new(12, Penalty::Clean), Solve::new(13, Penalty::Clean)];
    let result = average(&solves, &AverageKind::TrimmedMean(5));
    assert!(
        matches!(
            result,
            Err(AverageError::NotEnoughSolves {
                expected: _,
                found: _
            })
        ),
        "should have returned NotEnoughSolves error",
    );
}
