use maze_grid::grid::{Grid, Square};

#[test]
fn test_grid() {
    let mut grid = Grid::new(5, 5);

    assert!(grid.is_valid());

    for x in 0..5 {
        grid.set_wall(x, 2, 1, true);
    }

    assert!(!grid.is_valid());

    grid.set_wall(2, 2, 1, false);

    assert!(grid.is_valid());
}

#[test]
fn square_new_walls_keeps_fields() {
    let sq = Square::new_walls(1, 200, [false, false, true, true]);
    assert_eq!(sq.x(), 1);
    assert_eq!(sq.z(), 200);
    assert!(!sq.has_wall(0));
    assert!(!sq.has_wall(1));
    assert!(sq.has_wall(2));
    assert!(sq.has_wall(3));
}

#[test]
fn square_new_is_open() {
    let sq = Square::new(3, 4);
    assert_eq!(sq.x(), 3);
    assert_eq!(sq.z(), 4);
    for d in 0..4 {
        assert!(!sq.has_wall(d));
    }
}

#[test]
fn square_set_wall_touches_one_flag() {
    let mut sq = Square::new(0, 0);
    sq.set_wall(2, true);
    assert!(!sq.has_wall(0));
    assert!(!sq.has_wall(1));
    assert!(sq.has_wall(2));
    assert!(!sq.has_wall(3));
    sq.set_wall(2, false);
    for d in 0..4 {
        assert!(!sq.has_wall(d));
    }
}

#[test]
fn new_grid_is_reachable() {
    let grid = Grid::new(4, 3);
    assert!(grid.is_valid());
    let wide = Grid::new(7, 1);
    assert!(wide.is_valid());
}

#[test]
fn unit_grid_always_reachable() {
    let mut grid = Grid::new(1, 1);
    assert!(grid.is_valid());
    for d in 0..4 {
        grid.set_wall(0, 0, d, true);
        assert!(grid.is_valid());
    }
}

#[test]
fn set_wall_mirrors_to_neighbor() {
    let mut grid = Grid::new(3, 3);
    grid.set_wall(1, 1, 0, true);
    assert!(grid.get_wall(1, 1, 0));
    assert!(grid.get_wall(2, 1, 2));
    grid.set_wall(1, 1, 1, true);
    assert!(grid.get_wall(1, 2, 3));
    grid.set_wall(1, 1, 2, true);
    assert!(grid.get_wall(0, 1, 0));
    grid.set_wall(1, 1, 3, true);
    assert!(grid.get_wall(1, 0, 1));
    // clearing mirrors too
    grid.set_wall(2, 1, 2, false);
    assert!(!grid.get_wall(1, 1, 0));
}

#[test]
fn set_wall_on_border_writes_only_local_flag() {
    let mut grid = Grid::new(2, 2);
    grid.set_wall(0, 0, 2, true);
    assert!(grid.get_wall(0, 0, 2));
    // no neighbor exists toward -x, and other cells are untouched
    for x in 0..2 {
        for z in 0..2 {
            for d in 0..4 {
                if !(x == 0 && z == 0 && d == 2) {
                    assert!(!grid.get_wall(x, z, d));
                }
            }
        }
    }
}

fn all_walls(grid: &Grid, w: usize, d: usize) -> Vec<bool> {
    let mut out = Vec::new();
    for x in 0..w {
        for z in 0..d {
            for dir in 0..4 {
                out.push(grid.get_wall(x, z, dir));
            }
        }
    }
    out
}

#[test]
fn repeated_identical_set_wall_changes_nothing() {
    let mut grid = Grid::new(3, 3);
    grid.set_wall(1, 1, 0, true);
    let snapshot = all_walls(&grid, 3, 3);
    grid.set_wall(1, 1, 0, true);
    assert_eq!(all_walls(&grid, 3, 3), snapshot);
    grid.set_wall(0, 2, 3, false);
    let snapshot2 = all_walls(&grid, 3, 3);
    grid.set_wall(0, 2, 3, false);
    assert_eq!(all_walls(&grid, 3, 3), snapshot2);
}

#[test]
fn get_square_copies_cell_state() {
    let mut grid = Grid::new(3, 2);
    grid.set_wall(2, 1, 1, true);
    let sq = grid.get_square(2, 1);
    assert_eq!(sq.x(), 2);
    assert_eq!(sq.z(), 1);
    for d in 0..4 {
        assert_eq!(sq.has_wall(d), grid.get_wall(2, 1, d));
    }
    // the copy is detached from the grid
    let mut copy = grid.get_square(0, 0);
    copy.set_wall(0, true);
    assert!(!grid.get_wall(0, 0, 0));
}

#[test]
fn border_walls_seal_the_perimeter() {
    let mut grid = Grid::new(4, 4);
    grid.set_wall(1, 1, 0, true);
    grid.set_border_walls();
    for x in 0..4 {
        assert!(grid.get_wall(x, 0, 3));
        assert!(grid.get_wall(x, 3, 1));
    }
    for z in 0..4 {
        assert!(grid.get_wall(0, z, 2));
        assert!(grid.get_wall(3, z, 0));
    }
    // interior walls are untouched
    assert!(grid.get_wall(1, 1, 0));
    assert!(grid.get_wall(2, 1, 2));
    assert!(!grid.get_wall(1, 1, 1));
    assert!(grid.is_valid());
    // clearing the two configured openings leaves the rest of the border
    grid.set_wall(2, 0, 3, false);
    grid.set_wall(2, 3, 1, false);
    for x in 0..4 {
        assert_eq!(grid.get_wall(x, 0, 3), x != 2);
        assert_eq!(grid.get_wall(x, 3, 1), x != 2);
    }
    assert!(grid.is_valid());
}

#[test]
fn single_row_grid_blocking() {
    let mut grid = Grid::new(1, 4);
    assert!(grid.is_valid());
    grid.set_wall(0, 1, 1, true);
    assert!(!grid.is_valid());
    grid.set_wall(0, 2, 3, false);
    assert!(grid.is_valid());
}
