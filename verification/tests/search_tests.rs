use gridpath::grid::{CellKind, Grid, G_INFINITY};
use gridpath::search::{tick, Traversal};

/// Builds a grid, walls, start and end, and runs the search to completion.
fn run_search(
    columns: usize,
    rows: usize,
    walls: &[(usize, usize)],
    start: (usize, usize),
    end: (usize, usize),
) -> (Grid, Traversal) {
    let mut grid = Grid::init(columns, rows).unwrap();
    for &(wx, wy) in walls {
        grid.set_wall(wx, wy);
    }
    let si = grid.mark(start.0, start.1, CellKind::Start);
    let ei = grid.mark(end.0, end.1, CellKind::End);
    let mut tr = Traversal::new(si, ei);
    tr.seed(&mut grid);
    tick(&mut grid, &mut tr);
    (grid, tr)
}

fn path_cells(grid: &Grid) -> Vec<(usize, usize)> {
    grid.cells
        .iter()
        .filter(|c| c.kind == CellKind::Path)
        .map(|c| (c.x, c.y))
        .collect()
}

#[test]
fn open_grid_diagonal() {
    // 5x5, no walls, corner to corner: the path is the main diagonal,
    // three marked cells between start and end
    let (grid, tr) = run_search(5, 5, &[], (0, 0), (4, 4));
    let mut path = path_cells(&grid);
    path.sort();
    assert_eq!(path, vec![(1, 1), (2, 2), (3, 3)]);
    assert_eq!(grid.cells[tr.end].g, 4);
    assert_eq!(grid.cells[tr.start].g, 0);
    // relaxed cells carry the fixed-point distance to the end as h and the
    // combined score as f: for (1, 1) that is floor(1024 * sqrt(18))
    let relaxed = &grid.cells[grid.idx(1, 1)];
    assert_eq!(relaxed.h, 4344);
    assert_eq!(relaxed.f, 1024 + 4344);
    assert_eq!(grid.cells[tr.end].h, 0);
    assert_eq!(grid.cells[tr.end].f, 4 * 1024);
}

#[test]
fn open_grid_path_length_is_chebyshev() {
    // a single row: four steps from one end to the other
    let (grid, _tr) = run_search(5, 1, &[], (0, 0), (4, 0));
    let mut path = path_cells(&grid);
    path.sort();
    assert_eq!(path, vec![(1, 0), (2, 0), (3, 0)]);
    // a wide rectangle: the step count is the larger coordinate difference
    let (grid, tr) = run_search(6, 3, &[], (0, 0), (5, 2));
    assert_eq!(grid.cells[tr.end].g, 5);
    assert_eq!(path_cells(&grid).len(), 4);
}

#[test]
fn single_wall_is_routed_around() {
    // 3x3 with the center walled, corner to corner: two interior cells,
    // neither of them the wall, and the end is reached in three steps
    let (grid, tr) = run_search(3, 3, &[(1, 1)], (0, 0), (2, 2));
    let path = path_cells(&grid);
    assert_eq!(path.len(), 2);
    assert!(!path.contains(&(1, 1)));
    assert_eq!(grid.cells[grid.idx(1, 1)].kind, CellKind::Wall);
    assert_eq!(grid.cells[tr.end].g, 3);
    // the walk from the end really connects to the start through the two
    // marked cells, one adjacent step at a time, never through the wall
    let mut chain = vec![tr.end];
    let mut current = tr.end;
    while current != tr.start {
        let &p = tr.predecessors.get(&current).unwrap();
        let (cx, cy) = (grid.cells[current].x, grid.cells[current].y);
        let (px, py) = (grid.cells[p].x, grid.cells[p].y);
        assert!(cx.abs_diff(px) <= 1 && cy.abs_diff(py) <= 1 && (cx, cy) != (px, py));
        assert_ne!((px, py), (1, 1));
        chain.push(p);
        current = p;
    }
    assert_eq!(chain.len(), 4);
    for &(px, py) in &path {
        assert!(chain.contains(&grid.idx(px, py)));
    }
}

#[test]
fn start_equals_end_marks_nothing() {
    let mut grid = Grid::init(3, 3).unwrap();
    let si = grid.mark(1, 1, CellKind::Start);
    let mut tr = Traversal::new(si, si);
    tr.seed(&mut grid);
    tick(&mut grid, &mut tr);
    assert!(path_cells(&grid).is_empty());
    assert!(tr.open_set.is_empty());
    assert!(tr.predecessors.is_empty());
    assert_eq!(grid.cells[si].kind, CellKind::Start);
    assert_eq!(grid.cells[si].g, 0);
}

#[test]
fn walled_grid_marks_nothing() {
    // every cell but start and end is a wall, and they are not adjacent:
    // the open set empties and nothing is relabeled
    let walls: Vec<(usize, usize)> = (0..4usize)
        .flat_map(|y| (0..4usize).map(move |x| (x, y)))
        .filter(|&(x, y)| (x, y) != (0, 0) && (x, y) != (3, 3))
        .collect();
    let (grid, tr) = run_search(4, 4, &walls, (0, 0), (3, 3));
    assert!(path_cells(&grid).is_empty());
    assert!(tr.open_set.is_empty());
    assert_eq!(grid.cells[tr.end].g, G_INFINITY);
    assert_eq!(grid.cells[tr.end].kind, CellKind::End);
}

#[test]
fn blocked_column_leaves_no_path() {
    // a full wall column separates start from end: relaxation happens on
    // the start's side, but no cell is ever marked
    let (grid, tr) = run_search(3, 3, &[(1, 0), (1, 1), (1, 2)], (0, 0), (2, 2));
    assert!(path_cells(&grid).is_empty());
    assert!(tr.open_set.is_empty());
    assert_eq!(grid.cells[tr.end].g, G_INFINITY);
    // the reachable side was explored
    assert_eq!(grid.cells[grid.idx(0, 1)].g, 1);
    assert_eq!(grid.cells[grid.idx(0, 2)].g, 2);
}

#[test]
fn costs_never_increase_across_ticks() {
    let mut grid = Grid::init(4, 4).unwrap();
    grid.set_wall(2, 1);
    let si = grid.mark(0, 0, CellKind::Start);
    let ei = grid.mark(3, 3, CellKind::End);
    let mut tr = Traversal::new(si, ei);
    tr.seed(&mut grid);
    let before: Vec<u64> = grid.cells.iter().map(|c| c.g).collect();
    tick(&mut grid, &mut tr);
    let after: Vec<u64> = grid.cells.iter().map(|c| c.g).collect();
    for (b, a) in before.iter().zip(after.iter()) {
        assert!(a <= b);
    }
    // a second tick never raises a cost either
    tick(&mut grid, &mut tr);
    let again: Vec<u64> = grid.cells.iter().map(|c| c.g).collect();
    for (a, g) in after.iter().zip(again.iter()) {
        assert!(g <= a);
    }
}

#[test]
fn predecessor_walk_reaches_start_without_repeats() {
    let (grid, tr) = run_search(5, 4, &[(2, 1), (2, 2)], (0, 0), (4, 3));
    // walk the predecessor map backward from the end, as reconstruction
    // does, and check the walk is finite, acyclic and ends at the start
    let mut seen = vec![tr.end];
    let mut current = tr.end;
    loop {
        match tr.predecessors.get(&current) {
            None => break,
            Some(&p) => {
                assert!(!seen.contains(&p), "walk revisited a cell");
                assert!(grid.cells[p].g < grid.cells[current].g);
                seen.push(p);
                current = p;
                if current == tr.start {
                    break;
                }
            }
        }
    }
    assert_eq!(current, tr.start);
}

#[test]
fn wall_costs_stay_pinned() {
    let (grid, _tr) = run_search(4, 4, &[(1, 1), (2, 2)], (0, 0), (3, 3));
    assert_eq!(grid.cells[grid.idx(1, 1)].g, 0);
    assert_eq!(grid.cells[grid.idx(2, 2)].g, 0);
    assert_eq!(grid.cells[grid.idx(1, 1)].kind, CellKind::Wall);
    assert_eq!(grid.cells[grid.idx(2, 2)].kind, CellKind::Wall);
}
