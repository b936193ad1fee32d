use maze_grid::grid::Grid;
use maze_grid::maze::generate_maze;
use rand::rngs::StdRng;
use rand::SeedableRng;

fn all_walls(grid: &Grid, w: usize, d: usize) -> Vec<bool> {
    let mut out = Vec::new();
    for x in 0..w {
        for z in 0..d {
            for dir in 0..4 {
                out.push(grid.get_wall(x, z, dir));
            }
        }
    }
    out
}

#[test]
fn toggle_keeps_connectivity() {
    let mut grid = Grid::new(2, 2);
    // adding a wall between (0,0) and (1,0) keeps the detour open
    grid.try_toggle_wall(0, 0, 0);
    assert!(grid.get_wall(0, 0, 0));
    assert!(grid.get_wall(1, 0, 2));
    assert!(grid.is_valid());
    // toggling again removes it
    grid.try_toggle_wall(0, 0, 0);
    assert!(!grid.get_wall(0, 0, 0));
    assert!(grid.is_valid());
}

#[test]
fn toggle_rejects_disconnecting_flip() {
    let mut grid = Grid::new(1, 2);
    // the only wall between the two cells would disconnect them
    grid.try_toggle_wall(0, 0, 1);
    assert!(!grid.get_wall(0, 0, 1));
    assert!(grid.is_valid());
}

#[test]
fn apply_trials_is_deterministic() {
    let moves = vec![(0, 0, 0), (1, 1, 1), (2, 2, 3), (0, 0, 0), (2, 0, 2)];
    let mut g1 = Grid::new(3, 3);
    let mut g2 = Grid::new(3, 3);
    g1.apply_trials(&moves);
    g2.apply_trials(&moves);
    assert_eq!(all_walls(&g1, 3, 3), all_walls(&g2, 3, 3));
    assert!(g1.is_valid());
}

#[test]
fn randomize_keeps_connectivity() {
    let mut grid = Grid::new(5, 5);
    let mut rng = StdRng::seed_from_u64(7);
    grid.randomize_grid(&mut rng);
    assert!(grid.is_valid());
}

#[test]
fn generated_maze_is_connected_with_two_openings() {
    let mut rng = StdRng::seed_from_u64(11);
    let grid = generate_maze(5, 5, 2, 2, &mut rng);
    assert!(grid.is_valid());
    for x in 0..5 {
        assert_eq!(grid.get_wall(x, 0, 3), x != 2);
        assert_eq!(grid.get_wall(x, 4, 1), x != 2);
    }
    for z in 0..5 {
        assert!(grid.get_wall(0, z, 2));
        assert!(grid.get_wall(4, z, 0));
    }
}

#[test]
fn generated_unit_maze() {
    let mut rng = StdRng::seed_from_u64(3);
    let grid = generate_maze(1, 1, 0, 0, &mut rng);
    assert!(grid.is_valid());
    assert!(!grid.get_wall(0, 0, 3));
    assert!(!grid.get_wall(0, 0, 1));
    assert!(grid.get_wall(0, 0, 0));
    assert!(grid.get_wall(0, 0, 2));
}

#[test]
fn equal_seeds_give_identical_mazes() {
    let mut rng1 = StdRng::seed_from_u64(42);
    let mut rng2 = StdRng::seed_from_u64(42);
    let g1 = generate_maze(5, 5, 2, 2, &mut rng1);
    let g2 = generate_maze(5, 5, 2, 2, &mut rng2);
    assert_eq!(all_walls(&g1, 5, 5), all_walls(&g2, 5, 5));

    let mut rng3 = StdRng::seed_from_u64(9);
    let mut rng4 = StdRng::seed_from_u64(9);
    let mut h1 = Grid::new(4, 6);
    let mut h2 = Grid::new(4, 6);
    h1.randomize_grid(&mut rng3);
    h2.randomize_grid(&mut rng4);
    assert_eq!(all_walls(&h1, 4, 6), all_walls(&h2, 4, 6));
}
