use gridsearch::herb::solve_part1;
use gridsearch::herb::solve_part2;
use gridsearch::GridModel;
use gridsearch::SearchError;

fn grid_of(rows: &[&[u8]]) -> GridModel {
    let rows: Vec<Vec<u8>> = rows.iter().map(|r| r.to_vec()).collect();
    GridModel::from_rows(&rows).unwrap()
}

#[test]
fn herb_round_trip() {
    let grid = grid_of(&[b".#", b"H#"]);
    assert_eq!(solve_part1(&grid), Ok(2));
}

#[test]
fn herb_needs_an_entry() {
    let grid = grid_of(&[b"##", b"H#"]);
    assert_eq!(solve_part1(&grid), Err(SearchError::MalformedGrid));
}

#[test]
fn collect_all_markers_symmetric() {
    // Two markers three steps away in opposite directions; collecting
    // both and returning to the entry takes 8 steps.
    let grid = grid_of(&[b"#.#", b"#.#", b"A.B"]);
    assert_eq!(solve_part2(&grid), Ok(8));
}

#[test]
fn unreachable_marker_is_not_required() {
    // C sits behind a wall, so the flood pass leaves it out of the target
    // and only A must be collected.
    let grid = grid_of(&[b".A#C"]);
    assert_eq!(solve_part2(&grid), Ok(2));
}
