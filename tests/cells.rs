use ape::las::Reader;
use ape::{Builder, Cell, CellMeasurement, DidNotConverge, Grid, RunError, RunSummary, TimestampError};

/// `n` points spread over the square of edge `edge` whose lower-left corner is `(x0, y0)`.
fn square(x0: i64, y0: i64, edge: i64, n: usize) -> Vec<(i64, i64)> {
    (0..n as i64).map(|i| (x0 + i % edge, y0 + (i / edge) % edge)).collect()
}

fn drain(mut grid: Grid) -> Vec<Cell> {
    let mut cells = Vec::new();
    while let Some(c) = grid.pop() {
        cells.push(c);
    }
    cells.sort_by_key(|c| c.coordinates);
    cells
}

fn builder(before: Vec<(i64, i64)>, after: Vec<(i64, i64)>, grid_size: i64) -> Builder {
    Builder::new(before, after, "170101_000000.las", "170101_060000.las", grid_size).unwrap()
}

#[test]
fn points_are_bucketed_by_floor_division() {
    let before = vec![(5, 5), (15, 5), (-1, -1), (-10, 9), (9, 9)];
    let after = vec![(0, 0), (-11, 0)];
    let grid = Grid::from_points(&before, &after, 10, 7, 60);
    assert_eq!(grid.len(), 5);
    assert!(grid.contains((0, 0)));
    assert!(grid.contains((0, 1)));
    assert!(grid.contains((-1, -1)));
    assert!(grid.contains((0, -1)));
    assert!(grid.contains((0, -2)));
    assert!(!grid.contains((1, 0)));
    let cells = drain(grid);
    assert_eq!(cells[0].coordinates, (-1, -1));
    assert_eq!(cells[0].before, vec![2]);
    assert_eq!(cells[1].coordinates, (0, -2));
    assert!(cells[1].before.is_empty());
    assert_eq!(cells[1].after, vec![1]);
}

#[test]
fn bucketing_keeps_every_point_once() {
    let before = square(0, 0, 30, 900);
    let after = square(3, 3, 30, 900);
    let grid = Grid::from_points(&before, &after, 10, 0, 1);
    let mut seen_before: Vec<usize> = Vec::new();
    let mut seen_after: Vec<usize> = Vec::new();
    for c in drain(grid) {
        assert_eq!(c.grid_size, 10);
        for &i in &c.before {
            let (x, y) = before[i];
            assert_eq!(c.coordinates, (y.div_euclid(10), x.div_euclid(10)));
        }
        seen_before.extend(c.before);
        seen_after.extend(c.after);
    }
    seen_before.sort();
    seen_after.sort();
    assert_eq!(seen_before, (0..900).collect::<Vec<_>>());
    assert_eq!(seen_after, (0..900).collect::<Vec<_>>());
}

#[test]
fn two_by_two_block_grows_into_one_cell() {
    let mut before = Vec::new();
    let mut after = Vec::new();
    for (x0, y0) in [(0, 0), (100, 0), (0, 100), (100, 100)] {
        before.extend(square(x0, y0, 20, 400));
        after.extend(square(x0 + 1, y0 + 1, 20, 400));
    }
    let grid = builder(before, after, 100).min_points(1000).ngrow(1).into_grid();
    assert_eq!(grid.len(), 1);
    assert!(!grid.contains((0, 1)));
    assert!(!grid.contains((1, 0)));
    assert!(!grid.contains((1, 1)));
    let cells = drain(grid);
    assert_eq!(cells[0].coordinates, (0, 0));
    assert_eq!(cells[0].grid_size, 200);
    assert_eq!(cells[0].before.len(), 1600);
    assert_eq!(cells[0].after.len(), 1600);
}

#[test]
fn under_populated_cells_are_culled_without_growth() {
    let mut before = square(0, 0, 10, 50);
    before.extend(square(100, 0, 10, 5));
    let after = before.clone();
    let grid = builder(before, after, 100).min_points(10).into_grid();
    assert_eq!(grid.len(), 1);
    assert!(grid.contains((0, 0)));
}

#[test]
fn cell_at_max_points_is_kept_and_one_more_is_dropped() {
    let mut before = square(0, 0, 10, 20);
    before.extend(square(100, 0, 10, 21));
    let after = before.clone();
    let grid = builder(before, after, 100).max_points(20).into_grid();
    assert_eq!(grid.len(), 1);
    let cells = drain(grid);
    assert_eq!(cells[0].coordinates, (0, 0));
    assert_eq!(cells[0].before.len(), 20);
}

#[test]
fn growing_populated_cells_changes_nothing() {
    let before = square(0, 0, 40, 1600);
    let after = square(0, 0, 40, 1600);
    let mut grid = Grid::from_points(&before, &after, 10, 0, 1);
    assert_eq!(grid.len(), 16);
    assert_eq!(grid.grow(100), 0);
    assert_eq!(grid.grow(100), 0);
    assert_eq!(grid.len(), 16);
    for c in drain(grid) {
        assert_eq!(c.grid_size, 10);
        assert_eq!(c.before.len(), 100);
    }
}

#[test]
fn growth_rounds_double_the_edge_each_time() {
    let before = square(0, 0, 40, 1600);
    let after = square(0, 0, 40, 1600);
    let mut grid = Grid::from_points(&before, &after, 10, 0, 1);
    let grown = grid.grow(1000);
    assert!(grown > 0);
    let cells = drain(grid);
    assert_eq!(cells[0].coordinates, (0, 0));
    assert_eq!(cells[0].grid_size, 20);
    assert_eq!(cells[0].before.len(), 400);
    let total: usize = cells.iter().map(|c| c.before.len()).sum();
    assert_eq!(total, 1600);
}

#[test]
fn later_rounds_leave_populated_cells_alone() {
    let before = square(0, 0, 40, 1600);
    let after = square(0, 0, 40, 1600);
    let grid = builder(before, after, 10).min_points(300).ngrow(3).into_grid();
    assert_eq!(grid.coordinates(), vec![(0, 0), (0, 2), (2, 0), (2, 2)]);
    for c in drain(grid) {
        assert_eq!(c.grid_size, 20);
        assert_eq!(c.before.len(), 400);
        assert_eq!(c.after.len(), 400);
    }
}

#[test]
fn cells_are_listed_and_looked_up_by_coordinates() {
    let before = vec![(25, 5), (5, 5), (5, 15), (6, 6)];
    let grid = Grid::from_points(&before, &before, 10, 0, 1);
    assert_eq!(grid.coordinates(), vec![(0, 0), (0, 2), (1, 0)]);
    assert_eq!(grid.cell((0, 0)).map(|c| c.before.clone()), Some(vec![1, 3]));
    assert_eq!(grid.cell((0, 2)).map(|c| c.after.clone()), Some(vec![0]));
    assert!(grid.cell((2, 2)).is_none());
}

#[test]
fn builder_needs_ordered_scan_names() {
    let r = Builder::new(vec![], vec![], "170101_060000.las", "170101_000000.las", 10);
    assert_eq!(r.unwrap_err(), TimestampError::NotIncreasing);
    let r = Builder::new(vec![], vec![], "before.las", "170101_000000.las", 10);
    assert_eq!(r.unwrap_err(), TimestampError::Unparsed);
    let b = builder(vec![(1, 2)], vec![(3, 4)], 10);
    assert_eq!(b.duration, 21600);
    assert_eq!(b.datetime, 1483250400);
    assert_eq!(b.min_points, 0);
    assert_eq!(b.ngrow, 0);
    assert_eq!(b.max_points, usize::MAX);
    let grid = b.into_grid();
    assert_eq!(grid.duration(), 21600);
    assert_eq!(grid.datetime(), 1483250400);
}

#[test]
fn remove_and_pop_take_cells_out() {
    let before = vec![(5, 5), (15, 5)];
    let mut grid = Grid::from_points(&before, &before, 10, 0, 1);
    assert!(grid.remove((7, 7)).is_none());
    let c = grid.remove((0, 1)).unwrap();
    assert_eq!(c.before, vec![1]);
    assert_eq!(grid.len(), 1);
    assert!(grid.pop().is_some());
    assert!(grid.pop().is_none());
    assert_eq!(grid.len(), 0);
}

#[test]
fn only_converged_runs_give_a_measurement() {
    let before = vec![(5, 5), (6, 6), (7, 7)];
    let after = vec![(5, 6), (6, 7)];
    let mut grid = Grid::from_points(&before, &after, 10, 0, 1);
    let cell = grid.pop().unwrap();
    let run = RunSummary { converged: true, iterations: 12, moved_rows: 3 };
    assert_eq!(
        cell.measurement(&run),
        Ok(CellMeasurement {
            after_points: 2,
            before_points: 3,
            coordinates: (0, 0),
            grid_size: 10,
            iterations: 12,
        })
    );
    let run = RunSummary { converged: false, iterations: 5, moved_rows: 3 };
    assert_eq!(cell.measurement(&run), Err(RunError::DidNotConverge(DidNotConverge {})));
    let run = RunSummary { converged: true, iterations: 5, moved_rows: 2 };
    assert_eq!(cell.measurement(&run), Err(RunError::RowMismatch));
    assert_eq!(run.check(2), Ok(()));
    assert_eq!(cell.corner(), Some((0, 0)));
}

#[test]
fn corner_scales_coordinates_by_the_edge() {
    let before = vec![(-25, 35)];
    let mut grid = Grid::from_points(&before, &before, 10, 0, 1);
    let cell = grid.pop().unwrap();
    assert_eq!(cell.coordinates, (3, -3));
    assert_eq!(cell.corner(), Some((30, -30)));
    let far = vec![(i64::MAX, 0)];
    let mut grid = Grid::from_points(&far, &far, 1, 0, 1);
    assert_eq!(grid.pop().unwrap().corner(), Some((0, i64::MAX)));
    let mut grid = Grid::from_points(&far, &far, 1, 0, 1);
    let mut grown = builder(far.clone(), far.clone(), 1).min_points(2).ngrow(1).into_grid();
    assert_eq!(grown.len(), 0);
    assert!(grown.pop().is_none());
    assert!(grid.grow(2) == 1);
    assert_eq!(grid.pop().unwrap().corner(), None);
}

#[test]
fn reader_keeps_paths_in_order() {
    let reader = Reader::new();
    assert!(reader.paths().is_empty());
    let reader = reader.add_path("one.las").add_path("two.las");
    assert_eq!(reader.paths(), &vec!["one.las".to_string(), "two.las".to_string()]);
}

#[test]
fn growth_merges_neighbours_after_the_cell_own_points() {
    let before = vec![(5, 5), (15, 5), (5, 15), (15, 15), (35, 35)];
    let mut grid = Grid::from_points(&before, &before, 10, 0, 1);
    assert_eq!(grid.grow(2), 2);
    assert_eq!(grid.coordinates(), vec![(0, 0), (3, 3)]);
    let cell = grid.cell((0, 0)).unwrap();
    assert_eq!(cell.grid_size, 20);
    assert_eq!(cell.before, vec![0, 2, 1, 3]);
    assert_eq!(cell.after, vec![0, 2, 1, 3]);
    assert_eq!(grid.cell((3, 3)).unwrap().grid_size, 20);
}

#[test]
fn larger_neighbour_is_not_merged() {
    // Three points in (0, 0); one in each of (0, 1), (0, 2), (1, 1), (1, 2).
    let before = vec![(1, 1), (2, 2), (3, 3), (15, 5), (25, 5), (15, 15), (25, 15)];
    let mut grid = Grid::from_points(&before, &before, 10, 0, 1);
    assert_eq!(grid.grow(2), 1);
    assert_eq!(grid.coordinates(), vec![(0, 0), (0, 1)]);
    assert_eq!(grid.cell((0, 1)).unwrap().grid_size, 20);
    assert_eq!(grid.grow(10), 2);
    assert_eq!(grid.coordinates(), vec![(0, 0), (0, 1)]);
    assert_eq!(grid.cell((0, 0)).unwrap().grid_size, 20);
    assert_eq!(grid.cell((0, 0)).unwrap().before, vec![0, 1, 2]);
    assert_eq!(grid.cell((0, 1)).unwrap().grid_size, 40);
}
