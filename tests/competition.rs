use std::cmp::Ordering;

use fileshards::competition::{State, StateResult, Total};

#[test]
fn test_total_compare() {
    let a = Total {
        participant: 1,
        solves: 5,
        time: 666,
    };
    let b = Total {
        participant: 2,
        solves: 3,
        time: 1,
    };

    assert_eq!(a.cmp(&b), Ordering::Greater);

    let b = Total {
        participant: 2,
        solves: 5,
        time: 1000,
    };

    assert_eq!(a.cmp(&b), Ordering::Greater);

    assert_eq!(a.cmp(&a), Ordering::Equal);
}

#[test]
fn total_ties_break_on_participant() {
    let a = Total { participant: 1, solves: 2, time: 10 };
    let b = Total { participant: 2, solves: 2, time: 10 };
    assert_eq!(a.cmp(&b), Ordering::Less);
    assert_eq!(b.cmp(&a), Ordering::Greater);
    let c = Total { participant: 1, solves: 0, time: 0 };
    assert!(a == c);
    assert!(a != b);
}

#[test]
fn total_accumulates() {
    let mut t = Total::new(7);
    assert_eq!((t.participant, t.solves, t.time), (7, 0, 0));
    t.add_solve();
    t.add_time(35);
    t.add_time(20);
    assert_eq!((t.participant, t.solves, t.time), (7, 1, 55));
}

#[test]
fn state_lines() {
    let s = State::from_line("1 2 10 I").unwrap();
    assert_eq!(s, State { participant: 1, task: 2, time: 10, result: StateResult::Incorrect });
    assert_eq!(State::from_line("1 2 10").unwrap_err(), "Expected 4 arguments.");
    assert_eq!(State::from_line("x 2 10 C").unwrap_err(), "Expected participant id as number");
    assert_eq!(State::from_line("1 y 10 C").unwrap_err(), "Expected task id as number");
    assert_eq!(State::from_line("1 2 z C").unwrap_err(), "Expected time as number");
    assert_eq!(State::from_line("1 2 3 Q").unwrap_err(), "Unknown game result \"Q\".");
    assert_eq!(StateResult::from_code("R"), Ok(StateResult::ClarificationRequest));
    assert_eq!(StateResult::from_code("U"), Ok(StateResult::Unjudged));
    assert_eq!(StateResult::from_code("E"), Ok(StateResult::ErroneousSubmission));
    assert_eq!(StateResult::from_code("C"), Ok(StateResult::Correct));
    assert_eq!(StateResult::from_code("CC"), Err("Unknown game result \"CC\".".to_string()));
}

#[test]
fn total_line() {
    let t = Total { participant: 12, solves: 0, time: 305 };
    assert_eq!(t.to_line(), "12 0 305");
}
