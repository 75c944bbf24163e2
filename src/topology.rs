use vstd::prelude::*;

use crate::tile::{Tile, Wall};
use crate::utils::{cell_index, lemma_cell_index_bounds, lemma_cell_index_injective};

verus! {

/// A cell lies inside a `cols` by `rows` grid.
pub open spec fn in_grid(p: (usize, usize), cols: usize, rows: usize) -> bool {
    p.0 < cols && p.1 < rows
}

/// Two cells share a side.
pub open spec fn adjacent(a: (usize, usize), b: (usize, usize)) -> bool {
    ||| a.1 == b.1 && (a.0 + 1 == b.0 || b.0 + 1 == a.0)
    ||| a.0 == b.0 && (a.1 + 1 == b.1 || b.1 + 1 == a.1)
}

/// The side of `a` that faces `b`.
pub open spec fn side_toward(a: (usize, usize), b: (usize, usize)) -> Wall {
    if a.1 == b.1 {
        if a.0 < b.0 {
            Wall::Right
        } else {
            Wall::Left
        }
    } else {
        if a.1 < b.1 {
            Wall::Bottom
        } else {
            Wall::Top
        }
    }
}

/// The place of cell `p` in a row-major store with `cols` columns.
pub open spec fn pos_index(cols: usize, p: (usize, usize)) -> int {
    cell_index(cols as int, p.0 as int, p.1 as int)
}

/// The cells after the wall pair between `a` and `b` was carved away.
pub open spec fn carve_between(
    v: Seq<Tile>,
    cols: usize,
    a: (usize, usize),
    b: (usize, usize),
) -> Seq<Tile> {
    let ia = pos_index(cols, a);
    let ib = pos_index(cols, b);
    v.update(ia, v[ia].carved(side_toward(a, b))).update(ib, v[ib].carved(side_toward(b, a)))
}

/// `after` differs from `before` at most by walls taken away (and the fill
/// of the carved cells): no wall comes back, no cell moves, no exit changes.
pub open spec fn only_carved(before: Seq<Tile>, after: Seq<Tile>) -> bool {
    &&& after.len() == before.len()
    &&& forall|i: int|
        #![trigger after[i]]
        0 <= i < before.len() ==> {
            &&& after[i].walls.subset_of(before[i].walls)
            &&& after[i].col == before[i].col
            &&& after[i].row == before[i].row
            &&& after[i].x == before[i].x
            &&& after[i].y == before[i].y
            &&& after[i].width == before[i].width
            &&& after[i].height == before[i].height
            &&& after[i].exit == before[i].exit
        }
}

pub proof fn lemma_only_carved_refl(v: Seq<Tile>)
    ensures
        only_carved(v, v),
{
}

pub proof fn lemma_only_carved_trans(a: Seq<Tile>, b: Seq<Tile>, c: Seq<Tile>)
    requires
        only_carved(a, b),
        only_carved(b, c),
    ensures
        only_carved(a, c),
{
    assert forall|i: int| 0 <= i < a.len() implies #[trigger] c[i].walls.subset_of(a[i].walls) by {
        assert(b[i].walls.subset_of(a[i].walls));
        assert(c[i].walls.subset_of(b[i].walls));
        assert forall|w: Wall| #[trigger] c[i].walls.has(w) implies a[i].walls.has(w) by {
            assert(b[i].walls.has(w));
        }
    }
}

pub proof fn lemma_carve_only_carved(v: Seq<Tile>, cols: usize, rows: usize, a: (usize, usize), b: (usize, usize))
    requires
        v.len() == rows * cols,
        in_grid(a, cols, rows),
        in_grid(b, cols, rows),
    ensures
        only_carved(v, carve_between(v, cols, a, b)),
{
    lemma_cell_index_bounds(cols as int, rows as int, a.0 as int, a.1 as int);
    lemma_cell_index_bounds(cols as int, rows as int, b.0 as int, b.1 as int);
    let r = carve_between(v, cols, a, b);
    assert forall|i: int| 0 <= i < v.len() implies #[trigger] r[i].walls.subset_of(v[i].walls) by {
        assert forall|w: Wall| #[trigger] r[i].walls.has(w) implies v[i].walls.has(w) by {}
    }
}

/// Adjacent in-grid cells occupy distinct places in the store.
pub(crate) proof fn lemma_adjacent_distinct(cols: usize, rows: usize, a: (usize, usize), b: (usize, usize))
    requires
        in_grid(a, cols, rows),
        in_grid(b, cols, rows),
        adjacent(a, b),
    ensures
        pos_index(cols, a) != pos_index(cols, b),
        0 <= pos_index(cols, a) < rows * cols,
        0 <= pos_index(cols, b) < rows * cols,
{
    lemma_cell_index_bounds(cols as int, rows as int, a.0 as int, a.1 as int);
    lemma_cell_index_bounds(cols as int, rows as int, b.0 as int, b.1 as int);
    if pos_index(cols, a) == pos_index(cols, b) {
        lemma_cell_index_injective(cols as int, a.0 as int, a.1 as int, b.0 as int, b.1 as int);
    }
}

/// Every in-grid neighbour of a cell of `vis` is in `vis` too.
pub open spec fn closed_under_adjacency(vis: Set<(usize, usize)>, cols: usize, rows: usize) -> bool {
    forall|v: (usize, usize), n: (usize, usize)|
        #![trigger vis.contains(v), adjacent(v, n)]
        vis.contains(v) && in_grid(n, cols, rows) && adjacent(v, n) ==> vis.contains(n)
}

proof fn lemma_reach_col(
    vis: Set<(usize, usize)>,
    cols: usize,
    rows: usize,
    p: (usize, usize),
    c: usize,
)
    requires
        closed_under_adjacency(vis, cols, rows),
        in_grid(p, cols, rows),
        vis.contains(p),
        c < cols,
    ensures
        vis.contains((c, p.1)),
    decreases if c > p.0 {
        c - p.0
    } else {
        p.0 - c
    },
{
    if c > p.0 {
        lemma_reach_col(vis, cols, rows, p, (c - 1) as usize);
        assert(adjacent(((c - 1) as usize, p.1), (c, p.1)));
    } else if c < p.0 {
        lemma_reach_col(vis, cols, rows, p, (c + 1) as usize);
        assert(adjacent(((c + 1) as usize, p.1), (c, p.1)));
    }
}

proof fn lemma_reach_row(
    vis: Set<(usize, usize)>,
    cols: usize,
    rows: usize,
    p: (usize, usize),
    r: usize,
)
    requires
        closed_under_adjacency(vis, cols, rows),
        in_grid(p, cols, rows),
        vis.contains(p),
        r < rows,
    ensures
        vis.contains((p.0, r)),
    decreases if r > p.1 {
        r - p.1
    } else {
        p.1 - r
    },
{
    if r > p.1 {
        lemma_reach_row(vis, cols, rows, p, (r - 1) as usize);
        assert(adjacent((p.0, (r - 1) as usize), (p.0, r)));
    } else if r < p.1 {
        lemma_reach_row(vis, cols, rows, p, (r + 1) as usize);
        assert(adjacent((p.0, (r + 1) as usize), (p.0, r)));
    }
}

/// A rectangular grid is connected: a set of cells that holds one cell and
/// is closed under adjacency holds every cell.
pub proof fn lemma_closed_is_everything(
    vis: Set<(usize, usize)>,
    cols: usize,
    rows: usize,
    p: (usize, usize),
)
    requires
        closed_under_adjacency(vis, cols, rows),
        in_grid(p, cols, rows),
        vis.contains(p),
    ensures
        forall|q: (usize, usize)| in_grid(q, cols, rows) ==> #[trigger] vis.contains(q),
{
    assert forall|q: (usize, usize)| in_grid(q, cols, rows) implies #[trigger] vis.contains(q) by {
        lemma_reach_col(vis, cols, rows, p, q.0);
        lemma_reach_row(vis, cols, rows, (q.0, p.1), q.1);
    }
}

/// Every cell of the grid is in `vis`.
pub open spec fn covers_grid(vis: Set<(usize, usize)>, cols: usize, rows: usize) -> bool {
    forall|q: (usize, usize)| in_grid(q, cols, rows) ==> #[trigger] vis.contains(q)
}

/// Every cell of `v` still has all four walls.
pub open spec fn fully_walled(v: Seq<Tile>) -> bool {
    forall|i: int| 0 <= i < v.len() ==> #[trigger] v[i].walls.is_full()
}

/// The internal walls of the grid that are open in `v`.
pub open spec fn open_walls(v: Seq<Tile>, cols: usize, rows: usize) -> Set<
    ((usize, usize), (usize, usize)),
> {
    Set::new(
        |k: ((usize, usize), (usize, usize))|
            is_internal_wall(k, cols, rows) && is_open(v, cols, k.0, k.1),
    )
}

/// `path` walks from cell to adjacent cell of the grid, through open walls only.
pub open spec fn is_path(v: Seq<Tile>, cols: usize, rows: usize, path: Seq<(usize, usize)>) -> bool {
    &&& path.len() >= 1
    &&& forall|i: int| 0 <= i < path.len() ==> in_grid(#[trigger] path[i], cols, rows)
    &&& forall|i: int|
        0 <= i < path.len() - 1 ==> adjacent(#[trigger] path[i], path[i + 1]) && is_open(
            v,
            cols,
            path[i],
            path[i + 1],
        )
}

/// Some path through open walls leads from `a` to `b`.
pub open spec fn connected(
    v: Seq<Tile>,
    cols: usize,
    rows: usize,
    a: (usize, usize),
    b: (usize, usize),
) -> bool {
    exists|path: Seq<(usize, usize)>|
        #[trigger] is_path(v, cols, rows, path) && path[0] == a && path.last() == b
}

/// Taking walls away never closes a passage.
pub(crate) proof fn lemma_open_stays_open(
    v: Seq<Tile>,
    w: Seq<Tile>,
    cols: usize,
    rows: usize,
    a: (usize, usize),
    b: (usize, usize),
)
    requires
        v.len() == rows * cols,
        only_carved(v, w),
        in_grid(a, cols, rows),
        in_grid(b, cols, rows),
        is_open(v, cols, a, b),
    ensures
        is_open(w, cols, a, b),
{
    lemma_cell_index_bounds(cols as int, rows as int, a.0 as int, a.1 as int);
    lemma_cell_index_bounds(cols as int, rows as int, b.0 as int, b.1 as int);
    assert(w[pos_index(cols, a)].walls.subset_of(v[pos_index(cols, a)].walls));
    assert(w[pos_index(cols, b)].walls.subset_of(v[pos_index(cols, b)].walls));
}

pub(crate) proof fn lemma_path_stays_open(
    v: Seq<Tile>,
    w: Seq<Tile>,
    cols: usize,
    rows: usize,
    path: Seq<(usize, usize)>,
)
    requires
        v.len() == rows * cols,
        only_carved(v, w),
        is_path(v, cols, rows, path),
    ensures
        is_path(w, cols, rows, path),
{
    assert forall|i: int| 0 <= i < path.len() - 1 implies adjacent(#[trigger] path[i], path[i + 1])
        && is_open(w, cols, path[i], path[i + 1]) by {
        assert(in_grid(path[i + 1], cols, rows));
        lemma_open_stays_open(v, w, cols, rows, path[i], path[i + 1]);
    }
}

/// Cells ordered as `(col, row)` tuples are: by column, then by row.
pub open spec fn pos_lt(a: (usize, usize), b: (usize, usize)) -> bool {
    a.0 < b.0 || (a.0 == b.0 && a.1 < b.1)
}

/// The key of the unordered pair `{a, b}`: the smaller cell first.
pub open spec fn canonical_pair(
    a: (usize, usize),
    b: (usize, usize),
) -> ((usize, usize), (usize, usize)) {
    if pos_lt(a, b) {
        (a, b)
    } else {
        (b, a)
    }
}

/// `k` is the key of an internal wall of the grid: two adjacent cells,
/// the smaller first.
pub open spec fn is_internal_wall(k: ((usize, usize), (usize, usize)), cols: usize, rows: usize) -> bool {
    &&& in_grid(k.0, cols, rows)
    &&& in_grid(k.1, cols, rows)
    &&& adjacent(k.0, k.1)
    &&& pos_lt(k.0, k.1)
}

/// No wall separates `a` from `b`: both facing sides are gone.
pub open spec fn is_open(v: Seq<Tile>, cols: usize, a: (usize, usize), b: (usize, usize)) -> bool {
    &&& !v[pos_index(cols, a)].walls.has(side_toward(a, b))
    &&& !v[pos_index(cols, b)].walls.has(side_toward(b, a))
}

/// The in-grid neighbour of `p` in direction `d` (0 right, 1 bottom,
/// 2 left, 3 top), if there is one.
pub open spec fn neighbor_in(
    p: (usize, usize),
    d: usize,
    cols: usize,
    rows: usize,
) -> Option<(usize, usize)> {
    if d == 0 && p.0 + 1 < cols {
        Some(((p.0 + 1) as usize, p.1))
    } else if d == 1 && p.1 + 1 < rows {
        Some((p.0, (p.1 + 1) as usize))
    } else if d == 2 && p.0 > 0 {
        Some(((p.0 - 1) as usize, p.1))
    } else if d == 3 && p.1 > 0 {
        Some((p.0, (p.1 - 1) as usize))
    } else {
        None
    }
}

/// Two neighbours of one cell on the same side are the same cell.
pub(crate) proof fn lemma_side_determines_neighbor(p: (usize, usize), a: (usize, usize), b: (usize, usize))
    requires
        adjacent(p, a),
        adjacent(p, b),
        side_toward(p, a) == side_toward(p, b),
    ensures
        a == b,
{
}

/// Carving the pair `{p, n}` opens it and leaves every other internal wall
/// as it was.
pub(crate) proof fn lemma_carve_is_open(
    v: Seq<Tile>,
    cols: usize,
    rows: usize,
    p: (usize, usize),
    n: (usize, usize),
    a: (usize, usize),
    b: (usize, usize),
)
    requires
        v.len() == rows * cols,
        in_grid(p, cols, rows),
        in_grid(n, cols, rows),
        adjacent(p, n),
        in_grid(a, cols, rows),
        in_grid(b, cols, rows),
        adjacent(a, b),
    ensures
        is_open(carve_between(v, cols, p, n), cols, p, n),
        !((a == p && b == n) || (a == n && b == p)) ==> is_open(carve_between(v, cols, p, n), cols, a, b)
            == is_open(v, cols, a, b),
{
    lemma_adjacent_distinct(cols, rows, p, n);
    lemma_adjacent_distinct(cols, rows, a, b);
    let r = carve_between(v, cols, p, n);
    if !((a == p && b == n) || (a == n && b == p)) {
        if pos_index(cols, a) == pos_index(cols, p) {
            lemma_cell_index_injective(cols as int, a.0 as int, a.1 as int, p.0 as int, p.1 as int);
            if side_toward(a, b) == side_toward(p, n) {
                lemma_side_determines_neighbor(p, b, n);
            }
        }
        if pos_index(cols, a) == pos_index(cols, n) {
            lemma_cell_index_injective(cols as int, a.0 as int, a.1 as int, n.0 as int, n.1 as int);
            if side_toward(a, b) == side_toward(n, p) {
                lemma_side_determines_neighbor(n, b, p);
            }
        }
        if pos_index(cols, b) == pos_index(cols, p) {
            lemma_cell_index_injective(cols as int, b.0 as int, b.1 as int, p.0 as int, p.1 as int);
            if side_toward(b, a) == side_toward(p, n) {
                lemma_side_determines_neighbor(p, a, n);
            }
        }
        if pos_index(cols, b) == pos_index(cols, n) {
            lemma_cell_index_injective(cols as int, b.0 as int, b.1 as int, n.0 as int, n.1 as int);
            if side_toward(b, a) == side_toward(n, p) {
                lemma_side_determines_neighbor(n, a, p);
            }
        }
    }
}

/// The in-grid neighbour of `p` behind its side `w`, if there is one.
pub open spec fn neighbor_on(
    p: (usize, usize),
    w: Wall,
    cols: usize,
    rows: usize,
) -> Option<(usize, usize)> {
    match w {
        Wall::Left => if p.0 > 0 {
            Some(((p.0 - 1) as usize, p.1))
        } else {
            None
        },
        Wall::Top => if p.1 > 0 {
            Some((p.0, (p.1 - 1) as usize))
        } else {
            None
        },
        Wall::Right => if p.0 + 1 < cols {
            Some(((p.0 + 1) as usize, p.1))
        } else {
            None
        },
        Wall::Bottom => if p.1 + 1 < rows {
            Some((p.0, (p.1 + 1) as usize))
        } else {
            None
        },
    }
}

/// Walls went from `before` to `after` only as whole internal pairs: every
/// side that was taken away faces a neighbour inside the grid, and the wall
/// between the two is open in `after`. Border walls all stay.
pub open spec fn removed_in_pairs(before: Seq<Tile>, after: Seq<Tile>, cols: usize, rows: usize) -> bool {
    forall|p: (usize, usize), w: Wall|
        #![trigger after[pos_index(cols, p)].walls.has(w)]
        in_grid(p, cols, rows) && before[pos_index(cols, p)].walls.has(w) && !after[pos_index(
            cols,
            p,
        )].walls.has(w) ==> match neighbor_on(p, w, cols, rows) {
            Some(n) => is_open(after, cols, p, n),
            None => false,
        }
}

/// The two sides of every internal wall agree: each stands exactly when the
/// other does.
pub open spec fn pairs_consistent(v: Seq<Tile>, cols: usize, rows: usize) -> bool {
    forall|a: (usize, usize), b: (usize, usize)|
        #![trigger v[pos_index(cols, a)].walls.has(side_toward(a, b)), adjacent(a, b)]
        in_grid(a, cols, rows) && in_grid(b, cols, rows) && adjacent(a, b) ==> (v[pos_index(
            cols,
            a,
        )].walls.has(side_toward(a, b)) <==> v[pos_index(cols, b)].walls.has(side_toward(b, a)))
}

/// The neighbour behind a side is the cell that side faces.
pub(crate) proof fn lemma_neighbor_on(p: (usize, usize), w: Wall, cols: usize, rows: usize)
    requires
        in_grid(p, cols, rows),
    ensures
        neighbor_on(p, w, cols, rows) matches Some(n) ==> in_grid(n, cols, rows) && adjacent(p, n)
            && side_toward(p, n) == w,
{
}

pub proof fn lemma_removed_in_pairs_refl(v: Seq<Tile>, cols: usize, rows: usize)
    ensures
        removed_in_pairs(v, v, cols, rows),
{
}

pub proof fn lemma_removed_in_pairs_trans(
    a: Seq<Tile>,
    b: Seq<Tile>,
    c: Seq<Tile>,
    cols: usize,
    rows: usize,
)
    requires
        a.len() == rows * cols,
        only_carved(a, b),
        only_carved(b, c),
        removed_in_pairs(a, b, cols, rows),
        removed_in_pairs(b, c, cols, rows),
    ensures
        removed_in_pairs(a, c, cols, rows),
{
    assert forall|p: (usize, usize), w: Wall|
        in_grid(p, cols, rows) && a[pos_index(cols, p)].walls.has(w) && !#[trigger] c[pos_index(
            cols,
            p,
        )].walls.has(w) implies match neighbor_on(p, w, cols, rows) {
        Some(n) => is_open(c, cols, p, n),
        None => false,
    } by {
        lemma_neighbor_on(p, w, cols, rows);
        if !b[pos_index(cols, p)].walls.has(w) {
            let n = neighbor_on(p, w, cols, rows)->Some_0;
            lemma_open_stays_open(b, c, cols, rows, p, n);
        }
    }
}

/// Carving one pair removes walls only as that pair.
pub proof fn lemma_carve_removed_in_pairs(
    v: Seq<Tile>,
    cols: usize,
    rows: usize,
    a: (usize, usize),
    b: (usize, usize),
)
    requires
        v.len() == rows * cols,
        in_grid(a, cols, rows),
        in_grid(b, cols, rows),
        adjacent(a, b),
    ensures
        removed_in_pairs(v, carve_between(v, cols, a, b), cols, rows),
{
    let r = carve_between(v, cols, a, b);
    lemma_adjacent_distinct(cols, rows, a, b);
    lemma_carve_is_open(v, cols, rows, a, b, a, b);
    assert forall|p: (usize, usize), w: Wall|
        in_grid(p, cols, rows) && v[pos_index(cols, p)].walls.has(w) && !#[trigger] r[pos_index(
            cols,
            p,
        )].walls.has(w) implies match neighbor_on(p, w, cols, rows) {
        Some(n) => is_open(r, cols, p, n),
        None => false,
    } by {
        lemma_cell_index_bounds(cols as int, rows as int, p.0 as int, p.1 as int);
        if pos_index(cols, p) == pos_index(cols, a) {
            lemma_cell_index_injective(cols as int, p.0 as int, p.1 as int, a.0 as int, a.1 as int);
            assert(w == side_toward(a, b));
            assert(neighbor_on(p, w, cols, rows) == Some(b));
        } else if pos_index(cols, p) == pos_index(cols, b) {
            lemma_cell_index_injective(cols as int, p.0 as int, p.1 as int, b.0 as int, b.1 as int);
            assert(w == side_toward(b, a));
            assert(neighbor_on(p, w, cols, rows) == Some(a));
        }
    }
}

/// Walls that go only as whole pairs keep the two sides of every wall in
/// agreement.
pub proof fn lemma_pairs_stay_consistent(
    before: Seq<Tile>,
    after: Seq<Tile>,
    cols: usize,
    rows: usize,
)
    requires
        before.len() == rows * cols,
        only_carved(before, after),
        removed_in_pairs(before, after, cols, rows),
        pairs_consistent(before, cols, rows),
    ensures
        pairs_consistent(after, cols, rows),
{
    assert forall|a: (usize, usize), b: (usize, usize)|
        in_grid(a, cols, rows) && in_grid(b, cols, rows) && adjacent(a, b) implies (#[trigger] after[pos_index(
        cols,
        a,
    )].walls.has(side_toward(a, b)) <==> after[pos_index(cols, b)].walls.has(side_toward(b, a))) by {
        lemma_cell_index_bounds(cols as int, rows as int, a.0 as int, a.1 as int);
        lemma_cell_index_bounds(cols as int, rows as int, b.0 as int, b.1 as int);
        let wa = side_toward(a, b);
        let wb = side_toward(b, a);
        assert(after[pos_index(cols, a)].walls.subset_of(before[pos_index(cols, a)].walls));
        assert(after[pos_index(cols, b)].walls.subset_of(before[pos_index(cols, b)].walls));
        lemma_neighbor_on(a, wa, cols, rows);
        lemma_neighbor_on(b, wb, cols, rows);
        assert(before[pos_index(cols, a)].walls.has(wa) == before[pos_index(cols, b)].walls.has(wb));
        if before[pos_index(cols, a)].walls.has(wa) && !after[pos_index(cols, a)].walls.has(wa) {
            let n = neighbor_on(a, wa, cols, rows)->Some_0;
            lemma_side_determines_neighbor(a, n, b);
        }
        if before[pos_index(cols, b)].walls.has(wb) && !after[pos_index(cols, b)].walls.has(wb) {
            let n = neighbor_on(b, wb, cols, rows)->Some_0;
            lemma_side_determines_neighbor(b, n, a);
        }
    }
}

} // verus!
