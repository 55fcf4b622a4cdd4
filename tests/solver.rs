use queens::enumerate::EnumError;
use queens::oracle::count_solutions;

#[test]
fn solver_one_queen() {
    assert_eq!(count_solutions(1, false), Ok(1));
    assert_eq!(count_solutions(1, true), Ok(1));
}

#[test]
fn solver_two_and_three() {
    assert_eq!(count_solutions(2, false), Ok(0));
    assert_eq!(count_solutions(2, true), Ok(0));
    assert_eq!(count_solutions(3, false), Ok(0));
    assert_eq!(count_solutions(3, true), Ok(0));
}

#[test]
fn solver_four() {
    assert_eq!(count_solutions(4, false), Ok(2));
    assert_eq!(count_solutions(4, true), Ok(1));
}

#[test]
fn solver_eight() {
    assert_eq!(count_solutions(8, false), Ok(92));
    assert_eq!(count_solutions(8, true), Ok(12));
}

#[test]
fn solver_reduced_never_exceeds_raw() {
    for n in 1..=7 {
        let raw = count_solutions(n, false).unwrap();
        let folded = count_solutions(n, true).unwrap();
        assert!(folded <= raw);
    }
    assert_eq!(count_solutions(6, false), Ok(4));
    assert_eq!(count_solutions(6, true), Ok(1));
}

#[test]
fn solver_rejects_invalid_size() {
    assert_eq!(count_solutions(0, true), Err(EnumError::InvalidSize));
    assert_eq!(count_solutions(1048577, false), Err(EnumError::InvalidSize));
}
