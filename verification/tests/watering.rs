use gridsearch::flood::solve_part1;
use gridsearch::flood::solve_part2;
use gridsearch::flood::solve_part3;
use gridsearch::GridModel;
use gridsearch::SearchError;

fn grid_of(rows: &[&[u8]]) -> GridModel {
    let rows: Vec<Vec<u8>> = rows.iter().map(|r| r.to_vec()).collect();
    GridModel::from_rows(&rows).unwrap()
}

#[test]
fn single_channel_watering_time() {
    let grid = grid_of(&[b".#", b".P"]);
    assert_eq!(solve_part1(&grid), Ok(2));
}

#[test]
fn farthest_palm_sets_the_time() {
    let grid = grid_of(&[b".PP", b"##P"]);
    // The palm at the far corner is three steps from the channel.
    assert_eq!(solve_part1(&grid), Ok(3));
}

#[test]
fn two_channels_halve_the_work() {
    // With water entering on both open border cells, the middle palm is
    // one step from either.
    let grid = grid_of(&[b".P."]);
    assert_eq!(solve_part2(&grid), Ok(1));
}

#[test]
fn best_single_source_spot() {
    // The only open cell sits between the two palms: total watering time
    // 1 + 1.
    let grid = grid_of(&[b"P.P"]);
    assert_eq!(solve_part3(&grid), Ok(2));
    // Next to the lone palm beats every farther spot.
    let grid2 = grid_of(&[b"P...."]);
    assert_eq!(solve_part3(&grid2), Ok(1));
}

#[test]
fn walled_palm_never_watered() {
    let grid = grid_of(&[b".#P"]);
    assert_eq!(solve_part1(&grid), Err(SearchError::UnreachableGoal));
}

#[test]
fn plot_without_channel_is_malformed() {
    let grid = grid_of(&[b"#P"]);
    assert_eq!(solve_part1(&grid), Err(SearchError::MalformedGrid));
}
