use gridsearch::stamps::solve_part1;
use gridsearch::stamps::solve_part2;
use gridsearch::stamps::solve_part3;

#[test]
fn lib_test_part1() {
    // 6 = 1 + 5 and 11 = 1 + 10: two stamps each.
    assert_eq!(solve_part1("6\n11"), 4);
}

#[test]
fn lib_test_part2() {
    assert_eq!(solve_part2("33\n41\n55\n99"), 10);
}

#[test]
fn test_part2() {
    // 30 is a single stamp; 31 takes two.
    assert_eq!(solve_part2("30\n31"), 3);
}

#[test]
fn test_part3() {
    assert_eq!(solve_part3("156488\n352486\n546212"), 10_449)
}

#[test]
fn single_stamp_is_one() {
    assert_eq!(solve_part1("10"), 1);
    assert_eq!(solve_part1("1"), 1);
}

#[test]
fn exact_small_combinations() {
    // 2 = 1 + 1, 4 = 1 + 3, 8 = 3 + 5, 20 = 10 + 10.
    assert_eq!(solve_part1("2"), 2);
    assert_eq!(solve_part1("4"), 2);
    assert_eq!(solve_part1("8"), 2);
    assert_eq!(solve_part1("20"), 2);
}
