use maze::cell_set::CellSet;
use maze::maze::{
    carve_toward, choose_exit_tile, generate_tiles, iterative_backtracking, mark_exit,
    remove_random_walls, remove_walls_between_positions, try_remove_wall,
    NUMBER_OF_TILES_IN_BIGGER_AXIS,
};
use maze::tile::{Tile, TileColor, Wall};
use maze::utils::Vec2d;

fn fresh_grid(cols: usize, rows: usize) -> Vec2d<Tile> {
    let mut cells = Vec::new();
    for row in 0..rows {
        for col in 0..cols {
            cells.push(Tile::new(col, row, 0, 0, 8, 8, TileColor::Wall));
        }
    }
    Vec2d::new(cells, rows, cols).unwrap()
}

/// The open internal walls, each as (cell, right or bottom neighbour).
fn open_pairs(g: &Vec2d<Tile>) -> Vec<((usize, usize), (usize, usize))> {
    let mut out = Vec::new();
    for row in 0..g.rows {
        for col in 0..g.cols {
            let t = g.index(col, row);
            if col + 1 < g.cols
                && !t.walls.contains(&Wall::Right)
                && !g.index(col + 1, row).walls.contains(&Wall::Left)
            {
                out.push(((col, row), (col + 1, row)));
            }
            if row + 1 < g.rows
                && !t.walls.contains(&Wall::Bottom)
                && !g.index(col, row + 1).walls.contains(&Wall::Top)
            {
                out.push(((col, row), (col, row + 1)));
            }
        }
    }
    out
}

/// Every cell reachable from `start` through open walls.
fn reachable(g: &Vec2d<Tile>, start: (usize, usize)) -> usize {
    let pairs = open_pairs(g);
    let mut seen = vec![false; g.rows * g.cols];
    let mut todo = vec![start];
    seen[start.1 * g.cols + start.0] = true;
    let mut n = 1;
    while let Some(p) = todo.pop() {
        for (a, b) in &pairs {
            let other = if *a == p {
                *b
            } else if *b == p {
                *a
            } else {
                continue;
            };
            let i = other.1 * g.cols + other.0;
            if !seen[i] {
                seen[i] = true;
                n += 1;
                todo.push(other);
            }
        }
    }
    n
}

/// Every side on the edge of the grid still stands.
fn border_intact(g: &Vec2d<Tile>) -> bool {
    let mut ok = true;
    for row in 0..g.rows {
        ok &= g.index(0, row).walls.contains(&Wall::Left);
        ok &= g.index(g.cols - 1, row).walls.contains(&Wall::Right);
    }
    for col in 0..g.cols {
        ok &= g.index(col, 0).walls.contains(&Wall::Top);
        ok &= g.index(col, g.rows - 1).walls.contains(&Wall::Bottom);
    }
    ok
}

/// The two sides of every internal wall agree.
fn pairs_agree(g: &Vec2d<Tile>) -> bool {
    let mut ok = true;
    for row in 0..g.rows {
        for col in 0..g.cols {
            let t = g.index(col, row);
            if col + 1 < g.cols {
                ok &= t.walls.contains(&Wall::Right) == g.index(col + 1, row).walls.contains(&Wall::Left);
            }
            if row + 1 < g.rows {
                ok &= t.walls.contains(&Wall::Bottom) == g.index(col, row + 1).walls.contains(&Wall::Top);
            }
        }
    }
    ok
}

fn wall_masks(g: &Vec2d<Tile>) -> Vec<u8> {
    g.vec.iter().map(|t| t.wall_mask()).collect()
}

fn exits(g: &Vec2d<Tile>) -> usize {
    g.vec.iter().filter(|t| t.exit).count()
}

fn carve_all(g: &mut Vec2d<Tile>, start: (usize, usize)) -> (CellSet, Vec<(usize, usize)>) {
    let mut visited = CellSet::new(g.cols, g.rows);
    let mut stack = Vec::new();
    iterative_backtracking(g, &mut visited, &mut stack, start, 0);
    (visited, stack)
}

#[test]
fn removing_walls_between_horizontal_neighbours() {
    let mut g = fresh_grid(3, 2);
    remove_walls_between_positions(&mut g, (1, 0), (2, 0));
    assert!(!g.index(1, 0).walls.contains(&Wall::Right));
    assert!(!g.index(2, 0).walls.contains(&Wall::Left));
    assert_eq!(g.index(1, 0).wall_mask(), 11);
    assert_eq!(g.index(2, 0).wall_mask(), 14);
    assert_eq!(g.index(1, 0).color, TileColor::Path);
    assert_eq!(g.index(0, 0).wall_mask(), 15);
    remove_walls_between_positions(&mut g, (1, 1), (0, 1));
    assert_eq!(g.index(1, 1).wall_mask(), 14);
    assert_eq!(g.index(0, 1).wall_mask(), 11);
}

#[test]
fn removing_walls_between_vertical_neighbours() {
    let mut g = fresh_grid(2, 3);
    remove_walls_between_positions(&mut g, (1, 1), (1, 2));
    assert_eq!(g.index(1, 1).wall_mask(), 7);
    assert_eq!(g.index(1, 2).wall_mask(), 13);
    remove_walls_between_positions(&mut g, (0, 1), (0, 0));
    assert_eq!(g.index(0, 1).wall_mask(), 13);
    assert_eq!(g.index(0, 0).wall_mask(), 7);
}

#[test]
fn carve_toward_moves_and_records() {
    let mut g = fresh_grid(2, 2);
    let mut visited = CellSet::new(2, 2);
    visited.insert(0, 0);
    let mut stack = vec![(0, 0)];
    let next = carve_toward(&mut g, &mut visited, &mut stack, (0, 0), (0, 1));
    assert_eq!(next, (0, 1));
    assert_eq!(stack, vec![(0, 0), (0, 0)]);
    assert!(visited.contains(0, 1));
    assert_eq!(visited.len(), 2);
    assert_eq!(open_pairs(&g), vec![((0, 0), (0, 1))]);
}

#[test]
fn cell_set_counts_distinct_cells() {
    let mut s = CellSet::new(3, 2);
    assert_eq!(s.len(), 0);
    assert!(s.insert(2, 1));
    assert!(!s.insert(2, 1));
    assert!(s.insert(0, 0));
    assert_eq!(s.len(), 2);
    assert!(s.contains(2, 1));
    assert!(!s.contains(1, 1));
    assert!(!s.contains(5, 0));
    assert_eq!((s.cols(), s.rows()), (3, 2));
}

#[test]
fn three_by_three_unbounded_run_is_a_spanning_tree() {
    let mut g = fresh_grid(3, 3);
    let (visited, stack) = carve_all(&mut g, (0, 0));
    assert_eq!(visited.len(), 9);
    for row in 0..3 {
        for col in 0..3 {
            assert!(visited.contains(col, row));
        }
    }
    assert_eq!(open_pairs(&g).len(), 8);
    assert_eq!(reachable(&g, (0, 0)), 9);
    assert!(!stack.is_empty());
}

#[test]
fn unbounded_run_spans_every_grid_shape() {
    for rows in 1..7usize {
        for cols in 1..7usize {
            let mut g = fresh_grid(cols, rows);
            let start = (cols / 2, rows - 1);
            let (visited, _) = carve_all(&mut g, start);
            assert_eq!(visited.len(), rows * cols);
            assert_eq!(open_pairs(&g).len(), rows * cols - 1);
            assert_eq!(reachable(&g, start), rows * cols);
            assert!(border_intact(&g));
            assert!(pairs_agree(&g));
        }
    }
}

#[test]
fn one_by_one_grid_needs_no_step() {
    let mut g = fresh_grid(1, 1);
    let mut visited = CellSet::new(1, 1);
    let mut stack = Vec::new();
    let end = iterative_backtracking(&mut g, &mut visited, &mut stack, (0, 0), 0);
    assert_eq!(end, (0, 0));
    assert_eq!(visited.len(), 1);
    assert_eq!(stack, vec![(0, 0)]);
    assert_eq!(g.index(0, 0).wall_mask(), 15);
    assert_eq!(g.index(0, 0).color, TileColor::Wall);
    assert_eq!(remove_random_walls(&mut g, 1_000_000), (0, 0));
    assert_eq!(g.index(0, 0).wall_mask(), 15);
    choose_exit_tile(&mut g);
    assert!(g.index(0, 0).exit);
    assert_eq!(g.index(0, 0).color, TileColor::Exit);
}

#[test]
fn batches_only_ever_remove_walls() {
    let mut g = fresh_grid(6, 5);
    let mut visited = CellSet::new(6, 5);
    let mut stack = Vec::new();
    let mut pos = (2, 3);
    let mut before = wall_masks(&g);
    let mut last_len = 0;
    let mut batches = 0;
    while visited.len() != 30 {
        pos = iterative_backtracking(&mut g, &mut visited, &mut stack, pos, 3);
        let after = wall_masks(&g);
        for (a, b) in before.iter().zip(after.iter()) {
            assert_eq!(a & b, *b);
        }
        assert!(visited.len() >= last_len);
        // At most three moves a batch, plus the start cell on the first one.
        assert!(visited.len() <= last_len + 3 + if batches == 0 { 1 } else { 0 });
        assert!(visited.contains(pos.0, pos.1));
        last_len = visited.len();
        before = after;
        batches += 1;
    }
    assert!(batches >= 10);
    assert_eq!(open_pairs(&g).len(), 29);
    assert_eq!(reachable(&g, (2, 3)), 30);
}

#[test]
fn a_batch_takes_at_most_its_steps() {
    let mut g = fresh_grid(5, 5);
    let mut visited = CellSet::new(5, 5);
    let mut stack = Vec::new();
    let pos = iterative_backtracking(&mut g, &mut visited, &mut stack, (0, 0), 1);
    // One step from a fresh start always carves into a neighbour.
    assert_eq!(visited.len(), 2);
    assert_eq!(stack, vec![(0, 0), (0, 0)]);
    assert!(pos == (1, 0) || pos == (0, 1));
    assert_eq!(open_pairs(&g).len(), 1);
    // Four more steps: still nine cells short of done, so exactly four more moves or backtracks.
    let pos = iterative_backtracking(&mut g, &mut visited, &mut stack, pos, 4);
    assert!(visited.contains(pos.0, pos.1));
    assert_eq!(2 * (25 - visited.len()) + stack.len(), 2 * 23 + 2 - 4);
}

#[test]
fn braid_with_zero_fraction_removes_nothing() {
    let mut g = fresh_grid(8, 8);
    carve_all(&mut g, (0, 0));
    let before = wall_masks(&g);
    assert_eq!(remove_random_walls(&mut g, 0), (0, 0));
    assert_eq!(wall_masks(&g), before);
}

#[test]
fn braid_count_matches_newly_opened_walls() {
    let mut g = fresh_grid(10, 10);
    carve_all(&mut g, (4, 4));
    let before = open_pairs(&g);
    let (removed, attempts) = remove_random_walls(&mut g, 50_000);
    let after = open_pairs(&g);
    // 180 internal walls, 5% of them: a target of 9, and at most 900 attempts.
    assert!(removed <= 9);
    assert!(attempts <= 900);
    assert!(removed == 9 || attempts == 900);
    assert!(attempts >= removed);
    assert!(border_intact(&g));
    assert!(pairs_agree(&g));
    assert_eq!(after.len(), before.len() + removed);
    for p in &before {
        assert!(after.contains(p));
    }
}

#[test]
fn braid_with_full_fraction_opens_many_walls() {
    let mut g = fresh_grid(4, 4);
    carve_all(&mut g, (0, 0));
    let (removed, attempts) = remove_random_walls(&mut g, 2_000_000);
    // Only 9 walls still stand, short of the target of 24: every attempt is used.
    assert!(removed <= 24 - 15);
    assert_eq!(attempts, 120);
    assert!(border_intact(&g));
    assert!(pairs_agree(&g));
    assert_eq!(open_pairs(&g).len(), 15 + removed);
}

#[test]
fn try_remove_wall_skips_recorded_and_open_pairs() {
    let mut g = fresh_grid(3, 3);
    let mut removed = Vec::new();
    // Off the grid to the right of the last column.
    assert!(!try_remove_wall(&mut g, &mut removed, 2, 0, 0));
    // Towards the cell below (1, 1): carved and recorded with the smaller cell first.
    assert!(try_remove_wall(&mut g, &mut removed, 1, 1, 1));
    assert_eq!(removed, vec![((1, 1), (1, 2))]);
    assert_eq!(open_pairs(&g), vec![((1, 1), (1, 2))]);
    // The same pair again, from the other side: already recorded.
    assert!(!try_remove_wall(&mut g, &mut removed, 1, 2, 3));
    // Left of (1, 0): recorded as ((0, 0), (1, 0)).
    assert!(try_remove_wall(&mut g, &mut removed, 1, 0, 2));
    assert_eq!(removed[1], ((0, 0), (1, 0)));
    // A pair that is open but not recorded is left alone.
    remove_walls_between_positions(&mut g, (2, 2), (2, 1));
    assert!(!try_remove_wall(&mut g, &mut removed, 2, 1, 1));
    assert_eq!(removed.len(), 2);
    // A direction beyond 3 has no neighbour.
    assert!(!try_remove_wall(&mut g, &mut removed, 0, 0, 7));
}

#[test]
fn exit_selection_marks_exactly_one_cell() {
    for (cols, rows) in [(1usize, 1usize), (1, 5), (4, 1), (3, 3), (7, 4)] {
        let mut g = fresh_grid(cols, rows);
        carve_all(&mut g, (0, 0));
        assert_eq!(exits(&g), 0);
        choose_exit_tile(&mut g);
        assert_eq!(exits(&g), 1);
        let t = g.vec.iter().find(|t| t.exit).unwrap();
        assert_eq!(t.color, TileColor::Exit);
    }
}

#[test]
fn mark_exit_sets_flag_and_colour() {
    let mut g = fresh_grid(3, 2);
    mark_exit(&mut g, 2, 1);
    assert!(g.index(2, 1).exit);
    assert_eq!(g.index(2, 1).color, TileColor::Exit);
    assert_eq!(g.index(2, 1).wall_mask(), 15);
    assert_eq!(exits(&g), 1);
}

#[test]
fn generate_tiles_lays_out_a_centred_grid() {
    assert_eq!(NUMBER_OF_TILES_IN_BIGGER_AXIS, 30);
    let g = generate_tiles(800, 600);
    // 800 / 30 = 26 pixels a tile; 30 columns, 23 rows; 20 and 2 pixels left over.
    assert_eq!(g.cols, 30);
    assert_eq!(g.rows, 23);
    assert_eq!(g.vec.len(), 690);
    let t = g.index(2, 3);
    assert_eq!((t.col, t.row), (2, 3));
    assert_eq!((t.x, t.y), (62, 79));
    assert_eq!((t.width, t.height), (26, 26));
    assert_eq!(t.wall_mask(), 15);
    assert_eq!(t.color, TileColor::Wall);
    assert!(!t.exit);
    let first = g.index(0, 0);
    assert_eq!((first.x, first.y), (10, 1));
}

#[test]
fn generate_tiles_on_a_portrait_screen() {
    let g = generate_tiles(300, 900);
    assert_eq!(g.cols, 10);
    assert_eq!(g.rows, 30);
    let last = g.index(9, 29);
    assert_eq!((last.x, last.y), (270, 870));
}
