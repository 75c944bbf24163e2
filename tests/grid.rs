use maze::tile::{Tile, TileColor, Wall, WallSet};
use maze::utils::{GridError, Vec2d};

fn numbers(rows: usize, cols: usize) -> Vec2d<u32> {
    let cells: Vec<u32> = (0..(rows * cols) as u32).collect();
    Vec2d::new(cells, rows, cols).unwrap()
}

#[test]
fn new_accepts_matching_dimensions() {
    let g = numbers(2, 3);
    assert_eq!(g.rows, 2);
    assert_eq!(g.cols, 3);
    assert_eq!(g.vec.len(), 6);
}

#[test]
fn new_rejects_dimension_mismatch() {
    let r = Vec2d::new(vec![1u8, 2, 3], 2, 2);
    assert!(matches!(r, Err(GridError::DimensionMismatch)));
    let r = Vec2d::new(vec![1u8], usize::MAX, 2);
    assert!(matches!(r, Err(GridError::DimensionMismatch)));
}

#[test]
fn index_is_row_major() {
    let g = numbers(3, 4);
    assert_eq!(*g.index(0, 0), 0);
    assert_eq!(*g.index(3, 0), 3);
    assert_eq!(*g.index(0, 1), 4);
    assert_eq!(*g.index(2, 2), 10);
}

#[test]
fn row_returns_contiguous_cells() {
    let g = numbers(3, 4);
    assert_eq!(g.row(0), &[0, 1, 2, 3]);
    assert_eq!(g.row(2), &[8, 9, 10, 11]);
}

#[test]
fn index_mut_changes_one_cell() {
    let mut g = numbers(2, 2);
    *g.index_mut(1, 1) = 40;
    assert_eq!(g.vec, vec![0, 1, 2, 40]);
}

#[test]
fn get_out_of_bounds_fails_for_every_size() {
    for rows in 1..5usize {
        for cols in 1..5usize {
            let g = numbers(rows, cols);
            for row in 0..rows + 2 {
                for col in 0..cols + 2 {
                    let r = g.get(col, row);
                    if col >= cols || row >= rows {
                        assert!(matches!(r, Err(GridError::OutOfBounds)));
                    } else {
                        assert_eq!(*r.unwrap(), (row * cols + col) as u32);
                    }
                }
            }
        }
    }
}

#[test]
fn get_does_not_wrap_to_next_row() {
    let g = numbers(3, 3);
    assert!(matches!(g.get(3, 0), Err(GridError::OutOfBounds)));
    assert!(matches!(g.get(0, 3), Err(GridError::OutOfBounds)));
}

#[test]
fn get_mut_writes_in_bounds_only() {
    let mut g = numbers(2, 2);
    *g.get_mut(0, 1).unwrap() = 9;
    assert_eq!(g.vec, vec![0, 1, 9, 3]);
    assert!(matches!(g.get_mut(2, 0), Err(GridError::OutOfBounds)));
}

#[test]
fn wall_opposites_and_bits() {
    assert_eq!(Wall::Left.opposite(), Wall::Right);
    assert_eq!(Wall::Top.opposite(), Wall::Bottom);
    assert_eq!(Wall::Right.opposite(), Wall::Left);
    assert_eq!(Wall::Bottom.opposite(), Wall::Top);
    assert_eq!(Wall::Left.bit(), 1);
    assert_eq!(Wall::Top.bit(), 2);
    assert_eq!(Wall::Right.bit(), 4);
    assert_eq!(Wall::Bottom.bit(), 8);
}

#[test]
fn wall_set_remove_is_idempotent() {
    let mut w = WallSet::full();
    assert_eq!(w.len(), 4);
    assert_eq!(w.mask(), 15);
    assert!(w.remove(&Wall::Top));
    assert!(!w.remove(&Wall::Top));
    assert!(!w.contains(&Wall::Top));
    assert!(w.contains(&Wall::Left));
    assert_eq!(w.len(), 3);
    assert_eq!(w.mask(), 13);
}

#[test]
fn new_tile_is_fully_walled() {
    let t = Tile::new(2, 5, 10, 20, 8, 8, TileColor::Wall);
    assert_eq!((t.col, t.row), (2, 5));
    assert_eq!(t.walls.len(), 4);
    assert_eq!(t.wall_mask(), 15);
    assert!(!t.exit);
    assert_eq!(t.color, TileColor::Wall);
}

#[test]
fn remove_wall_marks_path() {
    let mut t = Tile::new(0, 0, 0, 0, 8, 8, TileColor::Wall);
    assert!(t.remove_wall(&Wall::Right));
    assert_eq!(t.color, TileColor::Path);
    assert_eq!(t.wall_mask(), 11);
    assert!(!t.remove_wall(&Wall::Right));
    assert_eq!(t.wall_mask(), 11);
}

#[test]
fn tiles_are_equal_by_coordinates() {
    let a = Tile::new(1, 2, 0, 0, 8, 8, TileColor::Wall);
    let mut b = Tile::new(1, 2, 50, 60, 4, 4, TileColor::Path);
    b.remove_wall(&Wall::Left);
    let c = Tile::new(2, 1, 0, 0, 8, 8, TileColor::Wall);
    assert!(a == b);
    assert!(a != c);
}
