use gridpath::grid::{CellKind, Grid, GridError, G_INFINITY, MAX_DIM};
use gridpath::math::{euclidean, isqrt};

#[test]
fn init_rejects_zero_dimensions() {
    assert!(matches!(Grid::init(0, 5), Err(GridError::InvalidDimensions)));
    assert!(matches!(Grid::init(5, 0), Err(GridError::InvalidDimensions)));
    assert!(matches!(Grid::init(0, 0), Err(GridError::InvalidDimensions)));
}

#[test]
fn init_rejects_oversized_dimensions() {
    assert!(matches!(Grid::init(MAX_DIM + 1, 5), Err(GridError::InvalidDimensions)));
    assert!(matches!(Grid::init(5, MAX_DIM + 1), Err(GridError::InvalidDimensions)));
}

#[test]
fn init_builds_background_cells() {
    let grid = Grid::init(4, 3).unwrap();
    assert_eq!(grid.columns, 4);
    assert_eq!(grid.rows, 3);
    assert_eq!(grid.cells.len(), 12);
    for (i, cell) in grid.cells.iter().enumerate() {
        assert_eq!(cell.kind, CellKind::Background);
        assert_eq!(cell.g, G_INFINITY);
        assert_eq!(cell.h, 0);
        assert_eq!(cell.f, 0);
        assert_eq!(cell.x, i % 4);
        assert_eq!(cell.y, i / 4);
    }
}

#[test]
fn idx_is_row_major() {
    let grid = Grid::init(4, 3).unwrap();
    assert_eq!(grid.idx(0, 0), 0);
    assert_eq!(grid.idx(3, 0), 3);
    assert_eq!(grid.idx(0, 1), 4);
    assert_eq!(grid.idx(2, 1), 6);
    assert_eq!(grid.idx(3, 2), 11);
}

#[test]
fn mark_changes_kind_and_nothing_else() {
    let mut grid = Grid::init(3, 3).unwrap();
    let i = grid.mark(1, 2, CellKind::Start);
    assert_eq!(i, 7);
    assert_eq!(grid.cells[i].kind, CellKind::Start);
    assert_eq!(grid.cells[i].g, G_INFINITY);
    assert_eq!(grid.cells[i].h, 0);
    assert_eq!(grid.cells[i].f, 0);
    for (j, cell) in grid.cells.iter().enumerate() {
        if j != i {
            assert_eq!(cell.kind, CellKind::Background);
        }
    }
}

#[test]
fn set_wall_pins_cost_at_zero() {
    let mut grid = Grid::init(3, 3).unwrap();
    let i = grid.set_wall(1, 1);
    assert_eq!(i, 4);
    assert_eq!(grid.cells[i].kind, CellKind::Wall);
    assert_eq!(grid.cells[i].g, 0);
    for (j, cell) in grid.cells.iter().enumerate() {
        if j != i {
            assert_eq!(cell.g, G_INFINITY);
        }
    }
}

#[test]
fn neighbors_of_corner_and_center() {
    let grid = Grid::init(3, 3).unwrap();
    let mut corner = grid.neighbors(0, 0);
    corner.sort();
    assert_eq!(corner, vec![1, 3, 4]);
    let mut center = grid.neighbors(1, 1);
    center.sort();
    assert_eq!(center, vec![0, 1, 2, 3, 5, 6, 7, 8]);
    let mut edge = grid.neighbors(1, 0);
    edge.sort();
    assert_eq!(edge, vec![0, 2, 3, 4, 5]);
}

#[test]
fn euclidean_is_zero_exactly_on_equal_coordinates() {
    assert_eq!(euclidean(0, 0, 0, 0), 0);
    assert_eq!(euclidean(7, 11, 7, 11), 0);
    assert_eq!(euclidean(32767, 5, 32767, 5), 0);
    assert_ne!(euclidean(0, 0, 1, 0), 0);
    assert_ne!(euclidean(3, 3, 3, 4), 0);
}

#[test]
fn euclidean_matches_fixed_point_distance() {
    // a 3-4-5 right triangle is exact: 5 steps at 1024 units each
    assert_eq!(euclidean(0, 0, 3, 4), 5 * 1024);
    assert_eq!(euclidean(3, 4, 0, 0), 5 * 1024);
    // one orthogonal step
    assert_eq!(euclidean(0, 0, 1, 0), 1024);
    // one diagonal step: floor(1024 * sqrt(2))
    assert_eq!(euclidean(0, 0, 1, 1), 1448);
}

#[test]
fn isqrt_exact_values() {
    assert_eq!(isqrt(0), 0);
    assert_eq!(isqrt(1), 1);
    assert_eq!(isqrt(3), 1);
    assert_eq!(isqrt(4), 2);
    assert_eq!(isqrt(24), 4);
    assert_eq!(isqrt(25), 5);
    assert_eq!(isqrt(1 << 52), 1 << 26);
    assert_eq!(isqrt(u128::from(u64::MAX)), 0xffff_ffff);
}
