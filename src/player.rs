use vstd::prelude::*;

use crate::topology::{in_grid, pos_index};
use crate::tile::{Tile, Wall};
use crate::utils::{lemma_cell_index_bounds, Vec2d};

verus! {

/// Where the player token is heading.
#[derive(Debug, Clone, Copy, PartialEq, Eq, Structural)]
pub enum Direction {
    Up,
    Right,
    Down,
    Left,
    Stop,
}

/// The wall that stops a move in direction `d`; none for standing still.
pub open spec fn blocking_wall(d: Direction) -> Option<Wall> {
    match d {
        Direction::Up => Some(Wall::Top),
        Direction::Right => Some(Wall::Right),
        Direction::Down => Some(Wall::Bottom),
        Direction::Left => Some(Wall::Left),
        Direction::Stop => None,
    }
}

/// What the player does in one frame.
#[derive(Debug, Clone, Copy, PartialEq, Eq, Structural)]
pub enum MoveDecision {
    /// The player stands on the exit: the level is done.
    Exit,
    /// No direction is set: the token settles on its tile.
    Idle,
    /// A wall blocks the way: the token stops and settles on its tile.
    Blocked,
    /// The token moves on; `(col, row)` is the tile it is on afterwards.
    Advance { col: usize, row: usize },
}

/// The wall that stops a move in direction `d`; `None` for standing still.
pub fn wall_in_direction(d: Direction) -> (r: Option<Wall>)
    ensures
        r == blocking_wall(d),
{
    match d {
        Direction::Up => Some(Wall::Top),
        Direction::Right => Some(Wall::Right),
        Direction::Down => Some(Wall::Bottom),
        Direction::Left => Some(Wall::Left),
        Direction::Stop => None,
    }
}

/// Whether the tile at `tile_pos` lets the player leave in `direction`.
pub fn can_move(tiles: &Vec2d<Tile>, tile_pos: (usize, usize), direction: Direction) -> (r: bool)
    requires
        tiles.wf(),
        in_grid(tile_pos, tiles.cols, tiles.rows),
    ensures
        r == match blocking_wall(direction) {
            Some(w) => !tiles.vec@[pos_index(tiles.cols, tile_pos)].walls.has(w),
            None => true,
        },
{
    match wall_in_direction(direction) {
        Some(w) => !tiles.index(tile_pos.0, tile_pos.1).walls.contains(&w),
        None => true,
    }
}

/// Decides one frame of player movement. `target` is the tile under the
/// token's next screen position; it is taken only when it differs from the
/// current tile and lies inside the grid.
pub fn decide_move(
    tiles: &Vec2d<Tile>,
    tile_pos: (usize, usize),
    direction: Direction,
    target: (usize, usize),
) -> (r: MoveDecision)
    requires
        tiles.wf(),
        in_grid(tile_pos, tiles.cols, tiles.rows),
    ensures
        ({
            let t = tiles.vec@[pos_index(tiles.cols, tile_pos)];
            if t.exit {
                r == MoveDecision::Exit
            } else if direction == Direction::Stop {
                r == MoveDecision::Idle
            } else if t.walls.has(blocking_wall(direction)->Some_0) {
                r == MoveDecision::Blocked
            } else if target != tile_pos && in_grid(target, tiles.cols, tiles.rows) {
                r == (MoveDecision::Advance { col: target.0, row: target.1 })
            } else {
                r == (MoveDecision::Advance { col: tile_pos.0, row: tile_pos.1 })
            }
        }),
{
    proof {
        lemma_cell_index_bounds(
            tiles.cols as int,
            tiles.rows as int,
            tile_pos.0 as int,
            tile_pos.1 as int,
        );
    }
    if tiles.index(tile_pos.0, tile_pos.1).exit {
        return MoveDecision::Exit;
    }
    if direction == Direction::Stop {
        return MoveDecision::Idle;
    }
    if can_move(tiles, tile_pos, direction) {
        if target.0 != tile_pos.0 || target.1 != tile_pos.1 {
            // The token only ever stands on a tile of the maze.
            if target.0 < tiles.cols && target.1 < tiles.rows {
                return MoveDecision::Advance { col: target.0, row: target.1 };
            }
        }
        MoveDecision::Advance { col: tile_pos.0, row: tile_pos.1 }
    } else {
        MoveDecision::Blocked
    }
}

} // verus!
