//! Cross-checks the search driver against a brute-force enumeration of
//! bounded paths on small synthetic grids.

use gridsearch::level_space::LevelSpace;
use gridsearch::plain_space::GoalKind;
use gridsearch::plain_space::PlainSpace;
use gridsearch::Connectivity;
use gridsearch::GridModel;
use gridsearch::SearchDriver;
use gridsearch::StateSpace;

fn grid_of(rows: &[&[u8]]) -> GridModel {
    let rows: Vec<Vec<u8>> = rows.iter().map(|r| r.to_vec()).collect();
    GridModel::from_rows(&rows).unwrap()
}

/// Enumerates every path of at most `depth` steps from `state` through the
/// space's transition function and returns the cheapest goal cost found.
fn brute_force<S: StateSpace>(
    space: &S,
    grid: &GridModel,
    state: usize,
    cost: u64,
    depth: usize,
) -> Option<u64> {
    let mut best = if space.is_goal(grid, state) {
        Some(cost)
    } else {
        None
    };
    if depth > 0 {
        for (next, w) in space.transitions(grid, state) {
            if let Some(b) = brute_force(space, grid, next, cost + w, depth - 1) {
                best = Some(match best {
                    None => b,
                    Some(old) => old.min(b),
                });
            }
        }
    }
    best
}

fn oracle<S: StateSpace>(space: &S, grid: &GridModel, depth: usize) -> Option<u64> {
    let mut best: Option<u64> = None;
    for (s0, c0) in space.initial_states(grid) {
        if let Some(b) = brute_force(space, grid, s0, c0, depth) {
            best = Some(match best {
                None => b,
                Some(old) => old.min(b),
            });
        }
    }
    best
}

#[test]
fn driver_matches_bounded_enumeration_plain() {
    let grid = grid_of(&[b"..#.", b"....", b".#.."]);
    let sp = PlainSpace {
        rows: grid.height(),
        cols: grid.width(),
        starts: vec![((0, 0), 0)],
        walls: vec![b'#'],
        conn: Connectivity::Four,
        goal: GoalKind::AtCell(2, 3),
        step_cost: 1,
    };
    // Every simple path on a 12-cell grid fits within 12 steps.
    let expected = oracle(&sp, &grid, 12).unwrap();
    assert_eq!(SearchDriver::find_first_goal(&sp, &grid), Ok(expected));
}

#[test]
fn driver_matches_bounded_enumeration_levels() {
    let grid = grid_of(&[b"S19", b"280", b"37E"]);
    let sp = LevelSpace {
        rows: grid.height(),
        cols: grid.width(),
        starts: vec![((0, 0), 0)],
        modulus: 10,
        step_cost: 1,
        conn: Connectivity::Four,
        goal: GoalKind::OnSymbol(b'E'),
    };
    // The optimum uses at most 9 steps on a 9-cell grid, and a cheapest
    // path never revisits a state, so depth 9 covers it.
    let expected = oracle(&sp, &grid, 9).unwrap();
    assert_eq!(SearchDriver::find_first_goal(&sp, &grid), Ok(expected));
}

#[test]
fn driver_matches_bounded_enumeration_multi_source() {
    let grid = grid_of(&[b"123", b"4#6", b"789"]);
    let sp = LevelSpace {
        rows: grid.height(),
        cols: grid.width(),
        starts: vec![((0, 2), 5), ((2, 0), 0)],
        modulus: 10,
        step_cost: 1,
        conn: Connectivity::Four,
        goal: GoalKind::AtCell(2, 2),
    };
    let expected = oracle(&sp, &grid, 9).unwrap();
    assert_eq!(SearchDriver::find_first_goal(&sp, &grid), Ok(expected));
}
