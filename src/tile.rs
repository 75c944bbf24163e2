use vstd::prelude::*;

verus! {

/// One of the four sides of a cell.
#[derive(Debug, Clone, Copy, PartialEq, Eq, Hash, Structural)]
pub enum Wall {
    Left,
    Top,
    Right,
    Bottom,
}

impl Wall {
    pub open spec fn opposite_spec(self) -> Wall {
        match self {
            Wall::Left => Wall::Right,
            Wall::Top => Wall::Bottom,
            Wall::Right => Wall::Left,
            Wall::Bottom => Wall::Top,
        }
    }

    pub open spec fn bit_spec(self) -> u8 {
        match self {
            Wall::Left => 1,
            Wall::Top => 2,
            Wall::Right => 4,
            Wall::Bottom => 8,
        }
    }

    /// The side of the neighbouring cell that faces this side: Left and
    /// Right pair up, as do Top and Bottom.
    pub fn opposite(&self) -> (r: Wall)
        ensures
            r == self.opposite_spec(),
    {
        match self {
            Wall::Left => Wall::Right,
            Wall::Top => Wall::Bottom,
            Wall::Right => Wall::Left,
            Wall::Bottom => Wall::Top,
        }
    }

    /// The flag of this side in the packed border mask: Left 1, Top 2,
    /// Right 4, Bottom 8.
    pub fn bit(&self) -> (r: u8)
        ensures
            r == self.bit_spec(),
    {
        match self {
            Wall::Left => 1,
            Wall::Top => 2,
            Wall::Right => 4,
            Wall::Bottom => 8,
        }
    }
}

/// The walls a cell still has: a set over the four sides.
#[derive(Debug, Clone, Copy, PartialEq, Eq, Structural)]
pub struct WallSet {
    pub left: bool,
    pub top: bool,
    pub right: bool,
    pub bottom: bool,
}

impl WallSet {
    pub open spec fn has(self, w: Wall) -> bool {
        match w {
            Wall::Left => self.left,
            Wall::Top => self.top,
            Wall::Right => self.right,
            Wall::Bottom => self.bottom,
        }
    }

    /// This set with side `w` taken out.
    pub open spec fn without(self, w: Wall) -> WallSet {
        match w {
            Wall::Left => WallSet { left: false, ..self },
            Wall::Top => WallSet { top: false, ..self },
            Wall::Right => WallSet { right: false, ..self },
            Wall::Bottom => WallSet { bottom: false, ..self },
        }
    }

    /// Every side of `self` is a side of `other`.
    pub open spec fn subset_of(self, other: WallSet) -> bool {
        forall|w: Wall| #[trigger] self.has(w) ==> other.has(w)
    }

    pub open spec fn is_full(self) -> bool {
        self.left && self.top && self.right && self.bottom
    }

    pub open spec fn count_spec(self) -> nat {
        (if self.left { 1nat } else { 0nat }) + (if self.top { 1nat } else { 0nat }) + (if self.right {
            1nat
        } else {
            0nat
        }) + (if self.bottom { 1nat } else { 0nat })
    }

    pub open spec fn mask_spec(self) -> u8 {
        ((if self.left { 1u8 } else { 0u8 }) + (if self.top { 2u8 } else { 0u8 }) + (if self.right {
            4u8
        } else {
            0u8
        }) + (if self.bottom { 8u8 } else { 0u8 })) as u8
    }

    /// All four sides.
    pub fn full() -> (r: WallSet)
        ensures
            r.is_full(),
            forall|w: Wall| #[trigger] r.has(w),
    {
        WallSet { left: true, top: true, right: true, bottom: true }
    }

    pub fn contains(&self, w: &Wall) -> (r: bool)
        ensures
            r == self.has(*w),
    {
        match w {
            Wall::Left => self.left,
            Wall::Top => self.top,
            Wall::Right => self.right,
            Wall::Bottom => self.bottom,
        }
    }

    /// Takes side `w` out; reports whether it was there. Taking out a side
    /// that is already gone changes nothing.
    pub fn remove(&mut self, w: &Wall) -> (r: bool)
        ensures
            r == old(self).has(*w),
            *final(self) == old(self).without(*w),
    {
        let was = self.contains(w);
        match w {
            Wall::Left => self.left = false,
            Wall::Top => self.top = false,
            Wall::Right => self.right = false,
            Wall::Bottom => self.bottom = false,
        }
        was
    }

    /// How many sides remain, from 0 to 4.
    pub fn len(&self) -> (r: usize)
        ensures
            r == self.count_spec(),
            r <= 4,
    {
        let mut n: usize = 0;
        if self.left {
            n = n + 1;
        }
        if self.top {
            n = n + 1;
        }
        if self.right {
            n = n + 1;
        }
        if self.bottom {
            n = n + 1;
        }
        n
    }

    /// The sides packed as the sum of their flags (see [`Wall::bit`]).
    pub fn mask(&self) -> (r: u8)
        ensures
            r == self.mask_spec(),
            r < 16,
    {
        let mut m: u8 = 0;
        if self.left {
            m = m + Wall::Left.bit();
        }
        if self.top {
            m = m + Wall::Top.bit();
        }
        if self.right {
            m = m + Wall::Right.bit();
        }
        if self.bottom {
            m = m + Wall::Bottom.bit();
        }
        m
    }
}

/// How a cell is filled: still solid, carved into a path, or the exit.
#[derive(Debug, Clone, Copy, PartialEq, Eq, Structural)]
pub enum TileColor {
    Wall,
    Path,
    Exit,
}

/// One cell of the maze: its coordinates, its remaining walls, its exit flag,
/// and where it is drawn on screen (in whole pixels).
#[derive(Debug, Clone, Copy)]
pub struct Tile {
    pub col: usize,
    pub row: usize,
    pub walls: WallSet,
    pub x: u16,
    pub y: u16,
    pub width: u16,
    pub height: u16,
    pub color: TileColor,
    pub exit: bool,
}

impl PartialEq for Tile {
    /// Two tiles are the same cell when their coordinates agree.
    fn eq(&self, other: &Tile) -> (r: bool) {
        self.col == other.col && self.row == other.row
    }
}

impl vstd::std_specs::cmp::PartialEqSpecImpl for Tile {
    open spec fn obeys_eq_spec() -> bool {
        true
    }

    open spec fn eq_spec(&self, other: &Tile) -> bool {
        self.col == other.col && self.row == other.row
    }
}

impl Eq for Tile {

}

impl Tile {
    /// This tile after side `w` was carved away: the side is gone and the
    /// tile is shown as path.
    pub open spec fn carved(self, w: Wall) -> Tile {
        Tile { walls: self.walls.without(w), color: TileColor::Path, ..self }
    }

    /// This tile marked as the exit.
    pub open spec fn as_exit(self) -> Tile {
        Tile { exit: true, color: TileColor::Exit, ..self }
    }

    /// A fully walled, non-exit cell.
    pub fn new(
        col: usize,
        row: usize,
        x: u16,
        y: u16,
        width: u16,
        height: u16,
        color: TileColor,
    ) -> (r: Tile)
        ensures
            r.col == col,
            r.row == row,
            r.walls.is_full(),
            r.x == x,
            r.y == y,
            r.width == width,
            r.height == height,
            r.color == color,
            !r.exit,
    {
        Tile { col, row, walls: WallSet::full(), x, y, width, height, color, exit: false }
    }

    /// Carves side `wall` away and reports whether it was still there.
    pub fn remove_wall(&mut self, wall: &Wall) -> (r: bool)
        ensures
            r == old(self).walls.has(*wall),
            *final(self) == old(self).carved(*wall),
    {
        self.color = TileColor::Path;
        self.walls.remove(wall)
    }

    /// The packed border mask of the remaining walls.
    pub fn wall_mask(&self) -> (r: u8)
        ensures
            r == self.walls.mask_spec(),
    {
        self.walls.mask()
    }
}

} // verus!
