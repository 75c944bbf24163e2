use maze::cell_set::CellSet;
use maze::maze::{choose_exit_tile, generate_tiles, iterative_backtracking, remove_random_walls};

/// Builds a whole maze the way the game does, from one seed.
fn build(seed: u64) -> (Vec<u8>, usize, (usize, usize)) {
    macroquad::rand::srand(seed);
    let mut g = generate_tiles(640, 480);
    let mut visited = CellSet::new(g.cols, g.rows);
    let mut stack = Vec::new();
    let mut pos = (3, 5);
    while visited.len() != g.vec.len() {
        pos = iterative_backtracking(&mut g, &mut visited, &mut stack, pos, 3);
    }
    let removed = remove_random_walls(&mut g, 30_000);
    choose_exit_tile(&mut g);
    let masks = g.vec.iter().map(|t| t.wall_mask()).collect();
    let exit = g.vec.iter().position(|t| t.exit).unwrap();
    (masks, exit, removed)
}

#[test]
fn same_seed_same_maze() {
    let a = build(12345);
    let b = build(12345);
    assert_eq!(a, b);
    let c = build(777);
    let d = build(777);
    assert_eq!(c, d);
}
