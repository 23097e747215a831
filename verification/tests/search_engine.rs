use gridsearch::budget_space::BudgetSpace;
use gridsearch::checkpoint_space::CheckpointSpace;
use gridsearch::collect_space::CollectSpace;
use gridsearch::level_space::LevelSpace;
use gridsearch::plain_space::GoalKind;
use gridsearch::plain_space::PlainSpace;
use gridsearch::Aggregator;
use gridsearch::Connectivity;
use gridsearch::GridModel;
use gridsearch::NoPruning;
use gridsearch::SearchDriver;
use gridsearch::SearchError;
use gridsearch::SearchMode;
use gridsearch::SearchOutcome;

fn grid_of(rows: &[&[u8]]) -> GridModel {
    let rows: Vec<Vec<u8>> = rows.iter().map(|r| r.to_vec()).collect();
    GridModel::from_rows(&rows).unwrap()
}

fn plain(grid: &GridModel, starts: Vec<((usize, usize), u64)>, goal: GoalKind) -> PlainSpace {
    PlainSpace {
        rows: grid.height(),
        cols: grid.width(),
        starts,
        walls: vec![b'#'],
        conn: Connectivity::Four,
        goal,
        step_cost: 1,
    }
}

#[test]
fn corner_to_corner_open_grid() {
    // A 3x3 grid of open cells, unit cost, 4-connectivity: one corner to
    // the opposite corner takes 4 steps.
    let grid = grid_of(&[b"...", b"...", b"..."]);
    let sp = plain(&grid, vec![((0, 0), 0)], GoalKind::AtCell(2, 2));
    assert_eq!(SearchDriver::find_first_goal(&sp, &grid), Ok(4));
}

#[test]
fn cyclic_level_wrap_costs_one() {
    // Levels 0 and 9 on a modulus-10 cycle: the wrap-around distance is
    // min(9, 1) = 1, not 9.
    let grid = grid_of(&[b"09"]);
    let sp = LevelSpace {
        rows: grid.height(),
        cols: grid.width(),
        starts: vec![((0, 0), 0)],
        modulus: 10,
        step_cost: 0,
        conn: Connectivity::Four,
        goal: GoalKind::AtCell(0, 1),
    };
    assert_eq!(SearchDriver::find_first_goal(&sp, &grid), Ok(1));
}

#[test]
fn collect_both_markers_and_return() {
    // Markers A and B sit 4 steps from the start in opposite directions
    // with no shared path segment: collect both and return in
    // 2*4 + 2*4 = 16 steps.
    let grid = grid_of(&[b"A...S...B"]);
    let sp = CollectSpace {
        rows: grid.height(),
        cols: grid.width(),
        start: (0, 4),
        walls: vec![b'#'],
        markers: vec![b'A', b'B'],
        target_mask: 0b11,
        conn: Connectivity::Four,
    };
    assert_eq!(SearchDriver::find_first_goal(&sp, &grid), Ok(16));
}

#[test]
fn budget_exhausted_is_unreachable() {
    // Every step drains 1 from a budget of 2; the goal is 4 steps away, so
    // the search must report the goal unreachable, not a garbage cost.
    let grid = grid_of(&[b"....."]);
    let sp = BudgetSpace {
        rows: grid.height(),
        cols: grid.width(),
        start: (0, 0),
        start_budget: 2,
        cap: 10,
        deltas: vec![(b'.', -1)],
        conn: Connectivity::Four,
        goal: GoalKind::AtCell(0, 4),
    };
    assert_eq!(
        SearchDriver::find_first_goal(&sp, &grid),
        Err(SearchError::UnreachableGoal)
    );
}

#[test]
fn budget_sufficient_reaches() {
    let grid = grid_of(&[b"....."]);
    let sp = BudgetSpace {
        rows: grid.height(),
        cols: grid.width(),
        start: (0, 0),
        start_budget: 6,
        cap: 10,
        deltas: vec![(b'.', -1)],
        conn: Connectivity::Four,
        goal: GoalKind::AtCell(0, 4),
    };
    assert_eq!(SearchDriver::find_first_goal(&sp, &grid), Ok(4));
}

#[test]
fn min_over_five_sources() {
    // Five candidate starts whose distances to the goal are 7, 3, 9, 3
    // and 11: the aggregated answer is 3.
    let grid = grid_of(&[b"............"]);
    let spaces: Vec<PlainSpace> = [4usize, 8, 2, 8, 0]
        .iter()
        .map(|&p| plain(&grid, vec![((0, p), 0)], GoalKind::AtCell(0, 11)))
        .collect();
    assert_eq!(Aggregator::min_over_sources(&spaces, &grid), Ok(3));
}

#[test]
fn full_map_is_breadth_first() {
    let grid = grid_of(&[b"...#."]);
    let sp = plain(&grid, vec![((0, 0), 0)], GoalKind::AtCell(0, 0));
    let dm = SearchDriver::full_distance_map(&sp, &grid).unwrap();
    assert_eq!(dm[0], Some(0));
    assert_eq!(dm[1], Some(1));
    assert_eq!(dm[2], Some(2));
    assert_eq!(dm[3], None);
    assert_eq!(dm[4], None);
}

#[test]
fn run_dispatches_on_mode() {
    let grid = grid_of(&[b"..."]);
    let sp = plain(&grid, vec![((0, 0), 0)], GoalKind::AtCell(0, 2));
    match SearchDriver::run(&sp, &grid, SearchMode::FindFirstGoal) {
        Ok(SearchOutcome::Cost(c)) => assert_eq!(c, 2),
        _ => panic!("expected a single cost"),
    }
    match SearchDriver::run(&sp, &grid, SearchMode::FullDistanceMap) {
        Ok(SearchOutcome::DistanceMap(dm)) => assert_eq!(dm.len(), 3),
        _ => panic!("expected a distance map"),
    }
}

#[test]
fn repeated_runs_agree() {
    // Idempotence: the same (grid, state space) pair gives the same cost
    // every time.
    let grid = grid_of(&[b".#.", b"...", b".#."]);
    let sp = plain(&grid, vec![((0, 0), 0)], GoalKind::AtCell(2, 2));
    let first = SearchDriver::find_first_goal(&sp, &grid);
    for _ in 0..5 {
        assert_eq!(SearchDriver::find_first_goal(&sp, &grid), first);
    }
}

#[test]
fn raising_a_cost_never_helps() {
    // Monotonicity: raising the uniform edge cost can only raise the
    // optimal cost.
    let grid = grid_of(&[b"....."]);
    let mut cheap = plain(&grid, vec![((0, 0), 0)], GoalKind::AtCell(0, 4));
    let mut dear = plain(&grid, vec![((0, 0), 0)], GoalKind::AtCell(0, 4));
    cheap.step_cost = 1;
    dear.step_cost = 3;
    let a = SearchDriver::find_first_goal(&cheap, &grid).unwrap();
    let b = SearchDriver::find_first_goal(&dear, &grid).unwrap();
    assert!(a <= b);
    assert_eq!(a, 4);
    assert_eq!(b, 12);
}

#[test]
fn pruning_keeps_the_answer() {
    // A ceiling above the starting budget is a proved-sound policy on a
    // draining budget space (no trace can cost as much), so discarding
    // such entries changes the exploration count but never the answer.
    let grid = grid_of(&[b"......", b"......"]);
    let sp = BudgetSpace {
        rows: grid.height(),
        cols: grid.width(),
        start: (0, 0),
        start_budget: 8,
        cap: 8,
        deltas: vec![(b'.', -1)],
        conn: Connectivity::Four,
        goal: GoalKind::AtCell(1, 5),
    };
    let policy = gridsearch::prune::CostCeiling { ceiling: 9 };
    let (unpruned, seen_plain) = SearchDriver::find_first_goal_counted(&sp, &grid, &NoPruning);
    let (pruned, seen_pruned) = SearchDriver::find_first_goal_counted(&sp, &grid, &policy);
    assert_eq!(unpruned, Ok(6));
    assert_eq!(unpruned, pruned);
    assert!(seen_pruned <= seen_plain);
}

#[test]
fn checkpoint_ordered_route() {
    // Checkpoints A then B, then back to the start along the lower row.
    let grid = grid_of(&[b"SAB", b"..."]);
    let sp = CheckpointSpace {
        rows: grid.height(),
        cols: grid.width(),
        start: (0, 0),
        checkpoints: vec![b'A', b'B'],
        costs: vec![(b'S', 1), (b'.', 1), (b'A', 1), (b'B', 1)],
        conn: Connectivity::Four,
    };
    assert_eq!(SearchDriver::find_first_goal(&sp, &grid), Ok(6));
}

#[test]
fn checkpoint_order_blocks_early_entry() {
    // B cannot be satisfied before A, and A is walled off, so the goal is
    // unreachable.
    let grid = grid_of(&[b"SB"]);
    let sp = CheckpointSpace {
        rows: grid.height(),
        cols: grid.width(),
        start: (0, 0),
        checkpoints: vec![b'A', b'B'],
        costs: vec![(b'S', 1), (b'B', 1)],
        conn: Connectivity::Four,
    };
    assert_eq!(
        SearchDriver::find_first_goal(&sp, &grid),
        Err(SearchError::UnreachableGoal)
    );
}

#[test]
fn malformed_grid_is_rejected() {
    let ragged: Vec<Vec<u8>> = vec![b"abc".to_vec(), b"ab".to_vec()];
    assert!(matches!(
        GridModel::from_rows(&ragged),
        Err(SearchError::MalformedGrid)
    ));
    let empty: Vec<Vec<u8>> = Vec::new();
    assert!(matches!(
        GridModel::from_rows(&empty),
        Err(SearchError::MalformedGrid)
    ));
}

#[test]
fn cost_overflow_is_reported() {
    // Two steps at the maximum edge cost cannot be summed in the cost
    // width; the search fails loudly instead of wrapping.
    let grid = grid_of(&[b"..."]);
    let mut sp = plain(&grid, vec![((0, 0), 0)], GoalKind::AtCell(0, 2));
    sp.step_cost = u64::MAX;
    assert_eq!(
        SearchDriver::find_first_goal(&sp, &grid),
        Err(SearchError::CostOverflow)
    );
}

#[test]
fn round_trip_doubles() {
    let grid = grid_of(&[b"....H"]);
    let sp = plain(&grid, vec![((0, 0), 0)], GoalKind::OnSymbol(b'H'));
    assert_eq!(Aggregator::round_trip(&sp, &grid), Ok(8));
}

#[test]
fn sum_and_max_over_goals() {
    let grid = grid_of(&[b"...."]);
    let sp = plain(&grid, vec![((0, 0), 0)], GoalKind::AtCell(0, 0));
    // States are row-major cell indices; distances are 0, 1, 2, 3.
    assert_eq!(Aggregator::sum_over_goals(&sp, &grid, &vec![3, 1]), Ok(4));
    assert_eq!(Aggregator::max_over_goals(&sp, &grid, &vec![3, 1]), Ok(3));
    assert_eq!(Aggregator::max_over_goals(&sp, &grid, &vec![]), Ok(0));
}

#[test]
fn bounds_checked_cell_access() {
    let grid = grid_of(&[b"ab", b"cd"]);
    assert_eq!(grid.cell(0, 0), Some(b'a'));
    assert_eq!(grid.cell(1, 1), Some(b'd'));
    assert_eq!(grid.cell(2, 0), None);
    assert_eq!(grid.cell(0, 2), None);
}

#[test]
fn neighbor_order_is_fixed() {
    let grid = grid_of(&[b"abc", b"def", b"ghi"]);
    let n4 = grid.neighbors(1, 1, Connectivity::Four);
    let symbols4: Vec<u8> = n4.iter().map(|p| p.1).collect();
    assert_eq!(symbols4, vec![b'b', b'd', b'f', b'h']);
    let n8 = grid.neighbors(1, 1, Connectivity::Eight);
    let symbols8: Vec<u8> = n8.iter().map(|p| p.1).collect();
    assert_eq!(symbols8, vec![b'a', b'b', b'c', b'd', b'f', b'g', b'h', b'i']);
    let corner = grid.neighbors(0, 0, Connectivity::Four);
    let symbols_corner: Vec<u8> = corner.iter().map(|p| p.1).collect();
    assert_eq!(symbols_corner, vec![b'b', b'd']);
}
