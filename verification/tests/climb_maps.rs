use gridsearch::climb::find_symbol_cell;
use gridsearch::climb::solve_part12;
use gridsearch::climb::solve_part3;
use gridsearch::level_space::level;
use gridsearch::GridModel;
use gridsearch::SearchError;

fn grid_of(rows: &[&[u8]]) -> GridModel {
    let rows: Vec<Vec<u8>> = rows.iter().map(|r| r.to_vec()).collect();
    GridModel::from_rows(&rows).unwrap()
}

#[test]
fn climbs_around_the_wrap() {
    // Stepping from level 0 to level 9 costs 1 + min(9, 1) = 2.
    let grid = grid_of(&[b"S9E"]);
    // S -> 9 costs 1 + 1; 9 -> E costs 1 + 1.
    assert_eq!(solve_part12(&grid), Ok(4));
}

#[test]
fn walls_force_a_detour() {
    let grid = grid_of(&[b"S#E", b"000"]);
    // Down 1+0, right 1+0, right 1+0, up 1+0.
    assert_eq!(solve_part12(&grid), Ok(4));
}

#[test]
fn missing_start_is_malformed() {
    let grid = grid_of(&[b"012", b"34E"]);
    assert_eq!(solve_part12(&grid), Err(SearchError::MalformedGrid));
}

#[test]
fn walled_off_summit_is_unreachable() {
    let grid = grid_of(&[b"S#E"]);
    assert_eq!(solve_part12(&grid), Err(SearchError::UnreachableGoal));
}

#[test]
fn lib_test_part3() {
    // Distances from the summit: the nearer of the two trailheads wins.
    let grid = grid_of(&[b"S0E0S"]);
    // E -> 0 -> S on the right: 2 steps of cost 1; the left S costs 2 as
    // well by symmetry; shrink the left side to break the tie.
    assert_eq!(solve_part3(&grid), Ok(2));
    let grid2 = grid_of(&[b"S00E0S"]);
    assert_eq!(solve_part3(&grid2), Ok(2));
}

#[test]
fn level_mapping() {
    assert_eq!(level(b'0'), Some(0));
    assert_eq!(level(b'9'), Some(9));
    assert_eq!(level(b'S'), Some(0));
    assert_eq!(level(b'E'), Some(0));
    assert_eq!(level(b'#'), None);
}

#[test]
fn finds_first_cell_in_row_major_order() {
    let grid = grid_of(&[b"ab", b"ba"]);
    assert_eq!(find_symbol_cell(&grid, b'b'), Some((0, 1)));
    assert_eq!(find_symbol_cell(&grid, b'a'), Some((0, 0)));
    assert_eq!(find_symbol_cell(&grid, b'z'), None);
}
