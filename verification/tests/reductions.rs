use gridsearch::nails;
use gridsearch::potions::solve_part;

#[test]
fn nails_level_to_minimum() {
    // Strikes to bring every nail down to the lowest: (3-3)+(5-3)+(4-3).
    assert_eq!(nails::solve_part12("3\n5\n4"), 3);
    assert_eq!(nails::solve_part12("7"), 0);
}

#[test]
fn nails_meet_at_median() {
    // A median height minimizes the total distance.
    assert_eq!(nails::solve_part3("1\n10\n2"), 9);
    assert_eq!(nails::solve_part3("1\n2\n100"), 99);
    assert_eq!(nails::solve_part3("5\n5\n5"), 0);
}

#[test]
fn potions_single_creatures() {
    // Alone, the four creatures cost 0, 1, 3 and 5 potions.
    assert_eq!(solve_part::<1>("ABCD"), 9);
}

#[test]
fn potions_pairs_and_empty_slots() {
    // "Ax" has one fighter and costs nothing extra; "BC" has two, each
    // costing one more.
    assert_eq!(solve_part::<2>("AxBC"), 6);
}

#[test]
fn potions_trios() {
    // "ABC": 0+1+3 plus 3*2 extra; "xxD": 5 with a single fighter.
    assert_eq!(solve_part::<3>("ABCxxD"), 15);
}

#[test]
fn potions_trims_whitespace() {
    assert_eq!(solve_part::<1>(" AB\n"), 1);
}
