use vstd::prelude::*;

use crate::cell_set::CellSet;
use crate::random::random_below;
use crate::tile::{Tile, TileColor, Wall, WallSet};
use crate::topology::{
    adjacent, canonical_pair, carve_between, closed_under_adjacency, connected, covers_grid,
    fully_walled, in_grid, is_internal_wall, is_open, is_path, lemma_adjacent_distinct,
    lemma_carve_is_open, lemma_carve_only_carved, lemma_carve_removed_in_pairs,
    lemma_closed_is_everything, lemma_only_carved_refl, lemma_only_carved_trans,
    lemma_pairs_stay_consistent, lemma_path_stays_open, lemma_removed_in_pairs_refl,
    lemma_removed_in_pairs_trans, neighbor_in, only_carved, open_walls, pairs_consistent,
    pos_index, removed_in_pairs, side_toward,
};
use crate::utils::{lemma_cell_index_bounds, lemma_cell_index_injective, Vec2d};

verus! {

/// Carves the wall pair between two adjacent cells: the side of `pos1` that
/// faces `pos2` and the side of `pos2` that faces `pos1` both go.
pub fn remove_walls_between_positions(
    tiles: &mut Vec2d<Tile>,
    pos1: (usize, usize),
    pos2: (usize, usize),
)
    requires
        old(tiles).wf(),
        in_grid(pos1, old(tiles).cols, old(tiles).rows),
        in_grid(pos2, old(tiles).cols, old(tiles).rows),
        adjacent(pos1, pos2),
    ensures
        final(tiles).rows == old(tiles).rows,
        final(tiles).cols == old(tiles).cols,
        final(tiles).vec@ == carve_between(old(tiles).vec@, old(tiles).cols, pos1, pos2),
{
    proof {
        lemma_adjacent_distinct(tiles.cols, tiles.rows, pos1, pos2);
    }
    let (col1, row1) = pos1;
    let (col2, row2) = pos2;
    if row1 == row2 {
        if col1 < col2 {
            tiles.index_mut(col1, row1).remove_wall(&Wall::Right);
            tiles.index_mut(col2, row2).remove_wall(&Wall::Left);
        } else {
            tiles.index_mut(col1, row1).remove_wall(&Wall::Left);
            tiles.index_mut(col2, row2).remove_wall(&Wall::Right);
        }
    } else {
        if row1 < row2 {
            tiles.index_mut(col1, row1).remove_wall(&Wall::Bottom);
            tiles.index_mut(col2, row2).remove_wall(&Wall::Top);
        } else {
            tiles.index_mut(col1, row1).remove_wall(&Wall::Top);
            tiles.index_mut(col2, row2).remove_wall(&Wall::Bottom);
        }
    }
}

/// The in-grid neighbours of `p` that are not in `vis`, in the order up,
/// down, left, right.
pub open spec fn unvisited_neighbors(
    p: (usize, usize),
    cols: usize,
    rows: usize,
    vis: Set<(usize, usize)>,
) -> Seq<(usize, usize)> {
    let up = (p.0, (p.1 - 1) as usize);
    let down = (p.0, (p.1 + 1) as usize);
    let left = ((p.0 - 1) as usize, p.1);
    let right = ((p.0 + 1) as usize, p.1);
    (if p.1 > 0 && !vis.contains(up) {
        seq![up]
    } else {
        seq![]
    }) + (if p.1 + 1 < rows && !vis.contains(down) {
        seq![down]
    } else {
        seq![]
    }) + (if p.0 > 0 && !vis.contains(left) {
        seq![left]
    } else {
        seq![]
    }) + (if p.0 + 1 < cols && !vis.contains(right) {
        seq![right]
    } else {
        seq![]
    })
}

/// The neighbour list holds exactly the in-grid cells next to `p` that are
/// not in `vis`.
pub proof fn lemma_unvisited_neighbors(
    p: (usize, usize),
    cols: usize,
    rows: usize,
    vis: Set<(usize, usize)>,
)
    requires
        in_grid(p, cols, rows),
    ensures
        forall|k: int|
            0 <= k < unvisited_neighbors(p, cols, rows, vis).len() ==> {
                let n = #[trigger] unvisited_neighbors(p, cols, rows, vis)[k];
                in_grid(n, cols, rows) && adjacent(p, n) && !vis.contains(n)
            },
        forall|n: (usize, usize)|
            in_grid(n, cols, rows) && #[trigger] adjacent(p, n) && !vis.contains(n)
                ==> unvisited_neighbors(p, cols, rows, vis).contains(n),
        unvisited_neighbors(p, cols, rows, vis).len() <= 4,
{
    let s = unvisited_neighbors(p, cols, rows, vis);
    assert forall|n: (usize, usize)|
        in_grid(n, cols, rows) && #[trigger] adjacent(p, n) && !vis.contains(n) implies s.contains(
        n,
    ) by {
        let up = (p.0, (p.1 - 1) as usize);
        let down = (p.0, (p.1 + 1) as usize);
        let left = ((p.0 - 1) as usize, p.1);
        let right = ((p.0 + 1) as usize, p.1);
        let a: Seq<(usize, usize)> = if p.1 > 0 && !vis.contains(up) {
            seq![up]
        } else {
            seq![]
        };
        let b: Seq<(usize, usize)> = if p.1 + 1 < rows && !vis.contains(down) {
            seq![down]
        } else {
            seq![]
        };
        let c: Seq<(usize, usize)> = if p.0 > 0 && !vis.contains(left) {
            seq![left]
        } else {
            seq![]
        };
        let d: Seq<(usize, usize)> = if p.0 + 1 < cols && !vis.contains(right) {
            seq![right]
        } else {
            seq![]
        };
        if n == up {
            assert(s[0] == n);
        } else if n == down {
            assert(s[a.len() as int] == n);
        } else if n == left {
            assert(s[(a.len() + b.len()) as int] == n);
        } else {
            assert(n == right);
            assert(s[(a.len() + b.len() + c.len()) as int] == n);
        }
    }
}

/// The in-grid neighbours of `(col, row)` that have not been visited yet,
/// in the order up, down, left, right.
fn get_unvisited_neighbors(
    col: usize,
    row: usize,
    max_cols: usize,
    max_rows: usize,
    visited: &CellSet,
) -> (r: Vec<(usize, usize)>)
    requires
        visited.wf(),
        col < max_cols,
        row < max_rows,
    ensures
        r@ == unvisited_neighbors((col, row), max_cols, max_rows, visited@),
{
    let mut neighbors: Vec<(usize, usize)> = Vec::with_capacity(4);
    if row > 0 && !visited.contains(col, row - 1) {
        neighbors.push((col, row - 1));
    }
    if row < max_rows - 1 && !visited.contains(col, row + 1) {
        neighbors.push((col, row + 1));
    }
    if col > 0 && !visited.contains(col - 1, row) {
        neighbors.push((col - 1, row));
    }
    if col < max_cols - 1 && !visited.contains(col + 1, row) {
        neighbors.push((col + 1, row));
    }
    assert(neighbors@ =~= unvisited_neighbors((col, row), max_cols, max_rows, visited@));
    neighbors
}

/// One carving move: the wall pair between `current` and `next` goes,
/// `current` is pushed on the backtracking stack, `next` is marked visited
/// and becomes the new position.
pub fn carve_toward(
    tiles: &mut Vec2d<Tile>,
    visited: &mut CellSet,
    stack: &mut Vec<(usize, usize)>,
    current: (usize, usize),
    next: (usize, usize),
) -> (r: (usize, usize))
    requires
        old(tiles).wf(),
        old(visited).wf(),
        old(visited).cols_spec() == old(tiles).cols,
        old(visited).rows_spec() == old(tiles).rows,
        in_grid(current, old(tiles).cols, old(tiles).rows),
        in_grid(next, old(tiles).cols, old(tiles).rows),
        adjacent(current, next),
    ensures
        r == next,
        final(tiles).rows == old(tiles).rows,
        final(tiles).cols == old(tiles).cols,
        final(tiles).vec@ == carve_between(old(tiles).vec@, old(tiles).cols, current, next),
        final(visited).wf(),
        final(visited).cols_spec() == old(visited).cols_spec(),
        final(visited).rows_spec() == old(visited).rows_spec(),
        final(visited)@ == old(visited)@.insert(next),
        final(visited).size() == old(visited).size() + if old(visited)@.contains(next) {
            0nat
        } else {
            1nat
        },
        final(stack)@ == old(stack)@.push(current),
{
    remove_walls_between_positions(tiles, current, next);
    stack.push(current);
    visited.insert(next.0, next.1);
    next
}

/// The state that the carver keeps between batches is consistent:
/// - the position and every stacked cell are visited cells of the grid;
/// - a visited cell that is neither the position nor on the stack has no
///   unvisited neighbour left (it was finished by backtracking);
/// - the bottom of the stack is the first cell, pushed once at start and
///   once more by the first move, so the stack runs empty only after every
///   cell was visited.
pub open spec fn carving_wf(
    tiles: Vec2d<Tile>,
    visited: CellSet,
    stack: Seq<(usize, usize)>,
    current: (usize, usize),
) -> bool {
    let cols = tiles.cols;
    let rows = tiles.rows;
    let vis = visited@;
    &&& tiles.wf()
    &&& visited.wf()
    &&& visited.cols_spec() == cols
    &&& visited.rows_spec() == rows
    &&& in_grid(current, cols, rows)
    &&& vis.contains(current)
    &&& forall|i: int| 0 <= i < stack.len() ==> vis.contains(#[trigger] stack[i])
    &&& forall|v: (usize, usize), n: (usize, usize)|
        #![trigger vis.contains(v), adjacent(v, n)]
        vis.contains(v) && v != current && !stack.contains(v) && in_grid(n, cols, rows) && adjacent(
            v,
            n,
        ) ==> vis.contains(n)
    &&& stack.len() >= 2 ==> stack[1] == stack[0]
    &&& stack.len() == 1 ==> current == stack[0]
    &&& stack.len() == 0 ==> covers_grid(vis, cols, rows)
}

/// The carving so far is a tree rooted at `root` that spans the visited
/// cells: each visited cell is reachable from `root` through open walls,
/// exactly one fewer internal wall is open than cells are visited, and the
/// cells not visited yet are untouched.
pub open spec fn carved_tree(
    v: Seq<Tile>,
    cols: usize,
    rows: usize,
    visited: CellSet,
    root: (usize, usize),
) -> bool {
    &&& visited@.contains(root)
    &&& forall|p: (usize, usize)|
        in_grid(p, cols, rows) && !#[trigger] visited@.contains(p) ==> v[pos_index(
            cols,
            p,
        )].walls.is_full()
    &&& open_walls(v, cols, rows).finite()
    &&& open_walls(v, cols, rows).len() + 1 == visited.size()
    &&& forall|q: (usize, usize)| #[trigger] visited@.contains(q) ==> connected(v, cols, rows, root, q)
}

/// One carving move into an unvisited cell grows the tree by that cell and
/// the one wall it opened.
proof fn lemma_carve_grows_tree(
    v: Seq<Tile>,
    cols: usize,
    rows: usize,
    visited: CellSet,
    grown: CellSet,
    root: (usize, usize),
    cur: (usize, usize),
    next: (usize, usize),
)
    requires
        v.len() == rows * cols,
        carved_tree(v, cols, rows, visited, root),
        in_grid(cur, cols, rows),
        in_grid(next, cols, rows),
        adjacent(cur, next),
        visited@.contains(cur),
        !visited@.contains(next),
        grown@ == visited@.insert(next),
        grown.size() == visited.size() + 1,
    ensures
        carved_tree(carve_between(v, cols, cur, next), cols, rows, grown, root),
{
    let w = carve_between(v, cols, cur, next);
    let key = canonical_pair(cur, next);
    lemma_carve_only_carved(v, cols, rows, cur, next);
    lemma_adjacent_distinct(cols, rows, cur, next);
    // Untouched cells stay untouched.
    assert forall|p: (usize, usize)|
        in_grid(p, cols, rows) && !#[trigger] grown@.contains(p) implies w[pos_index(
        cols,
        p,
    )].walls.is_full() by {
        lemma_cell_index_bounds(cols as int, rows as int, p.0 as int, p.1 as int);
        if pos_index(cols, p) == pos_index(cols, cur) {
            lemma_cell_index_injective(cols as int, p.0 as int, p.1 as int, cur.0 as int, cur.1 as int);
        }
        if pos_index(cols, p) == pos_index(cols, next) {
            lemma_cell_index_injective(
                cols as int,
                p.0 as int,
                p.1 as int,
                next.0 as int,
                next.1 as int,
            );
        }
    }
    // Exactly one more wall is open: the one between `cur` and `next`.
    assert(v[pos_index(cols, next)].walls.is_full());
    assert(!open_walls(v, cols, rows).contains(key));
    assert forall|k: ((usize, usize), (usize, usize))|
        #[trigger] open_walls(w, cols, rows).contains(k) <==> open_walls(v, cols, rows).insert(
            key,
        ).contains(k) by {
        if is_internal_wall(k, cols, rows) {
            lemma_carve_is_open(v, cols, rows, cur, next, k.0, k.1);
        }
    }
    assert(open_walls(w, cols, rows) =~= open_walls(v, cols, rows).insert(key));
    // Every visited cell, and now `next`, is reachable from the root.
    assert forall|q: (usize, usize)| #[trigger] grown@.contains(q) implies connected(
        w,
        cols,
        rows,
        root,
        q,
    ) by {
        let c = if q == next {
            cur
        } else {
            q
        };
        assert(visited@.contains(c));
        assert(connected(v, cols, rows, root, c));
        let path = choose|path: Seq<(usize, usize)>|
            #[trigger] is_path(v, cols, rows, path) && path[0] == root && path.last() == c;
        lemma_path_stays_open(v, w, cols, rows, path);
        if q == next {
            let longer = path.push(next);
            lemma_carve_is_open(v, cols, rows, cur, next, cur, next);
            assert forall|i: int| 0 <= i < longer.len() - 1 implies adjacent(
                #[trigger] longer[i],
                longer[i + 1],
            ) && is_open(w, cols, longer[i], longer[i + 1]) by {
                if i < path.len() - 1 {
                    assert(longer[i] == path[i] && longer[i + 1] == path[i + 1]);
                }
            }
            assert(is_path(w, cols, rows, longer));
        } else {
            assert(is_path(w, cols, rows, path));
        }
    }
}

/// A carving that has visited every cell is a spanning tree of the grid:
/// every cell is reachable from the root through open walls, and exactly
/// `rows * cols - 1` internal walls are open.
pub proof fn lemma_finished_carving_spans(
    v: Seq<Tile>,
    cols: usize,
    rows: usize,
    visited: CellSet,
    root: (usize, usize),
)
    requires
        carved_tree(v, cols, rows, visited, root),
        visited.wf(),
        visited.cols_spec() == cols,
        visited.rows_spec() == rows,
        covers_grid(visited@, cols, rows),
    ensures
        open_walls(v, cols, rows).len() == rows * cols - 1,
        forall|q: (usize, usize)| in_grid(q, cols, rows) ==> #[trigger] connected(v, cols, rows, root, q),
{
    visited.lemma_size();
    assert(rows * cols == cols * rows) by (nonlinear_arith);
    assert forall|q: (usize, usize)| in_grid(q, cols, rows) implies #[trigger] connected(
        v,
        cols,
        rows,
        root,
        q,
    ) by {
        assert(visited@.contains(q));
    }
}

/// One iteration of the carver on the state (cells, visited cells, stack,
/// position) with the draw `k`: a move into the `k`-th unvisited neighbour
/// when there is one, else a backtrack to the top of the stack, which draws
/// nothing and ignores `k`.
pub open spec fn carve_iteration(
    st: (Seq<Tile>, Set<(usize, usize)>, Seq<(usize, usize)>, (usize, usize)),
    cols: usize,
    rows: usize,
    k: usize,
) -> (Seq<Tile>, Set<(usize, usize)>, Seq<(usize, usize)>, (usize, usize)) {
    let ns = unvisited_neighbors(st.3, cols, rows, st.1);
    if ns.len() > 0 {
        let next = ns[k as int];
        (carve_between(st.0, cols, st.3, next), st.1.insert(next), st.2.push(st.3), next)
    } else {
        (st.0, st.1, st.2.drop_last(), st.2.last())
    }
}

/// The carver replayed from state `st`, one iteration per draw, in order.
pub open spec fn carve_replay(
    st: (Seq<Tile>, Set<(usize, usize)>, Seq<(usize, usize)>, (usize, usize)),
    cols: usize,
    rows: usize,
    draws: Seq<usize>,
) -> (Seq<Tile>, Set<(usize, usize)>, Seq<(usize, usize)>, (usize, usize))
    decreases draws.len(),
{
    if draws.len() == 0 {
        st
    } else {
        carve_iteration(carve_replay(st, cols, rows, draws.drop_last()), cols, rows, draws.last())
    }
}

/// What is left of a carving run: each step, a move or a backtrack, lowers
/// it by exactly one.
pub open spec fn carving_measure(n_cells: int, n_visited: nat, stack_len: nat) -> int {
    2 * (n_cells - n_visited) + stack_len
}

/// Runs the randomized iterative-backtracking carver for one batch of at
/// most `max_steps` steps (no bound when `max_steps` is 0), stopping early
/// once every cell is visited, and returns the position to resume from.
///
/// On the first call (empty stack) the run starts at `start_position`.
/// Each step either carves into a uniformly drawn unvisited neighbour, or,
/// when there is none, backtracks to the cell on top of the stack.
pub fn iterative_backtracking(
    tiles: &mut Vec2d<Tile>,
    visited: &mut CellSet,
    stack: &mut Vec<(usize, usize)>,
    start_position: (usize, usize),
    max_steps: usize,
) -> (r: (usize, usize))
    requires
        old(tiles).wf(),
        old(visited).wf(),
        old(visited).cols_spec() == old(tiles).cols,
        old(visited).rows_spec() == old(tiles).rows,
        in_grid(start_position, old(tiles).cols, old(tiles).rows),
        old(stack)@.len() == 0 ==> old(visited).size() == 0 || covers_grid(
            old(visited)@,
            old(tiles).cols,
            old(tiles).rows,
        ),
        old(stack)@.len() > 0 ==> carving_wf(
            *old(tiles),
            *old(visited),
            old(stack)@,
            start_position,
        ),
    ensures
        carving_wf(*final(tiles), *final(visited), final(stack)@, r),
        final(tiles).rows == old(tiles).rows,
        final(tiles).cols == old(tiles).cols,
        only_carved(old(tiles).vec@, final(tiles).vec@),
        old(visited)@.subset_of(final(visited)@),
        final(visited)@.contains(start_position),
        max_steps == 0 ==> covers_grid(final(visited)@, final(tiles).cols, final(tiles).rows),
        max_steps == 0 ==> final(visited).size() == final(tiles).rows * final(tiles).cols,
        old(stack)@.len() == 0 && old(visited).size() == 0 && fully_walled(old(tiles).vec@)
            ==> carved_tree(
            final(tiles).vec@,
            old(tiles).cols,
            old(tiles).rows,
            *final(visited),
            start_position,
        ),
        forall|root: (usize, usize)|
            carved_tree(old(tiles).vec@, old(tiles).cols, old(tiles).rows, *old(visited), root)
                ==> #[trigger] carved_tree(
                final(tiles).vec@,
                old(tiles).cols,
                old(tiles).rows,
                *final(visited),
                root,
            ),
        ({
            let n_cells = old(tiles).rows * old(tiles).cols;
            let opened = old(stack)@.len() == 0 && !old(visited)@.contains(start_position);
            let at_start = carving_measure(
                n_cells,
                if opened {
                    old(visited).size() + 1
                } else {
                    old(visited).size()
                },
                if old(stack)@.len() == 0 {
                    1
                } else {
                    old(stack)@.len()
                },
            );
            let at_end = carving_measure(n_cells, final(visited).size(), final(stack)@.len());
            max_steps > 0 ==> {
                &&& at_end + max_steps >= at_start
                &&& covers_grid(final(visited)@, old(tiles).cols, old(tiles).rows) || at_end
                    + max_steps == at_start
            }
        }),
        removed_in_pairs(old(tiles).vec@, final(tiles).vec@, old(tiles).cols, old(tiles).rows),
        pairs_consistent(old(tiles).vec@, old(tiles).cols, old(tiles).rows) ==> pairs_consistent(
            final(tiles).vec@,
            old(tiles).cols,
            old(tiles).rows,
        ),
        old(stack)@.len() == 0 ==> exists|draws: Seq<usize>|
            #[trigger] carve_replay(
                (
                    old(tiles).vec@,
                    old(visited)@.insert(start_position),
                    seq![start_position],
                    start_position,
                ),
                old(tiles).cols,
                old(tiles).rows,
                draws,
            ) == (final(tiles).vec@, final(visited)@, final(stack)@, r),
        old(stack)@.len() > 0 ==> exists|draws: Seq<usize>|
            #[trigger] carve_replay(
                (old(tiles).vec@, old(visited)@, old(stack)@, start_position),
                old(tiles).cols,
                old(tiles).rows,
                draws,
            ) == (final(tiles).vec@, final(visited)@, final(stack)@, r),
        ({
            let opened = old(stack)@.len() == 0 && !old(visited)@.contains(start_position);
            let size0: int = if opened {
                old(visited).size() + 1int
            } else {
                old(visited).size() as int
            };
            let newly = newly_opened(
                old(tiles).vec@,
                final(tiles).vec@,
                old(tiles).cols,
                old(tiles).rows,
            );
            &&& newly.finite()
            &&& newly.len() + size0 <= final(visited).size()
            &&& max_steps > 0 ==> final(visited).size() <= size0 + max_steps
        }),
        max_steps == 0 && old(stack)@.len() == 0 && old(visited).size() == 0 && fully_walled(
            old(tiles).vec@,
        ) ==> {
            &&& open_walls(final(tiles).vec@, old(tiles).cols, old(tiles).rows).len() == old(
                tiles,
            ).rows * old(tiles).cols - 1
            &&& forall|q: (usize, usize)|
                in_grid(q, old(tiles).cols, old(tiles).rows) ==> #[trigger] connected(
                    final(tiles).vec@,
                    old(tiles).cols,
                    old(tiles).rows,
                    start_position,
                    q,
                )
        },
{
    let ghost cols = tiles.cols;
    let ghost rows = tiles.rows;
    let ghost n_cells = rows * cols;
    let ghost fresh = stack@.len() == 0 && visited.size() == 0 && fully_walled(tiles.vec@);
    let mut current = start_position;
    let mut steps_taken: usize = 0;
    proof {
        visited.lemma_size();
        assert(rows * cols == cols * rows) by (nonlinear_arith);
    }
    // First call: the start cell opens the run.
    if stack.len() == 0 {
        stack.push(current);
        visited.insert(current.0, current.1);
        proof {
            visited.lemma_size();
            if !covers_grid(visited@, cols, rows) {
                assert(old(visited)@ =~= Set::<(usize, usize)>::empty()) by {
                    if exists|q: (usize, usize)| old(visited)@.contains(q) {
                        let q = choose|q: (usize, usize)| old(visited)@.contains(q);
                        assert(visited@.contains(q));
                    }
                }
                assert(visited@ =~= set![current]);
            }
            if fresh {
                assert(open_walls(tiles.vec@, cols, rows) =~= Set::empty()) by {
                    assert forall|k: ((usize, usize), (usize, usize))| !#[trigger] open_walls(
                        tiles.vec@,
                        cols,
                        rows,
                    ).contains(k) by {
                        if is_internal_wall(k, cols, rows) {
                            lemma_cell_index_bounds(cols as int, rows as int, k.0.0 as int, k.0.1 as int);
                            assert(tiles.vec@[pos_index(cols, k.0)].walls.is_full());
                        }
                    }
                }
                assert(visited@ =~= set![current]);
                assert(is_path(tiles.vec@, cols, rows, seq![current]));
                assert(connected(tiles.vec@, cols, rows, current, current));
                assert forall|p: (usize, usize)|
                    in_grid(p, cols, rows) && !#[trigger] visited@.contains(p) implies tiles.vec@[pos_index(
                    cols,
                    p,
                )].walls.is_full() by {
                    lemma_cell_index_bounds(cols as int, rows as int, p.0 as int, p.1 as int);
                }
            }
        }
    }
    proof {
        lemma_only_carved_refl(tiles.vec@);
    }
    let ghost at_start = carving_measure(n_cells, visited.size(), stack@.len());
    let ghost state0 = (tiles.vec@, visited@, stack@, current);
    let ghost mut draws: Seq<usize> = Seq::empty();
    proof {
        if old(stack)@.len() == 0 {
            assert(stack@ =~= seq![start_position]);
            assert(state0 == (
                old(tiles).vec@,
                old(visited)@.insert(start_position),
                seq![start_position],
                start_position,
            ));
        } else {
            assert(state0 == (old(tiles).vec@, old(visited)@, old(stack)@, start_position));
        }
    }
    let ghost size0 = visited.size();
    proof {
        lemma_removed_in_pairs_refl(tiles.vec@, cols, rows);
        assert(newly_opened(tiles.vec@, tiles.vec@, cols, rows) =~= Set::empty());
    }
    let len = tiles.vec.len();
    let unlimited = max_steps == 0;
    while visited.len() != len && (unlimited || steps_taken < max_steps)
        invariant
            carving_wf(*tiles, *visited, stack@, current),
            tiles.cols == cols,
            tiles.rows == rows,
            n_cells == rows * cols,
            n_cells == cols * rows,
            len == n_cells,
            unlimited == (max_steps == 0),
            visited.size() <= n_cells,
            only_carved(old(tiles).vec@, tiles.vec@),
            old(visited)@.subset_of(visited@),
            visited@.contains(start_position),
            fresh == (old(stack)@.len() == 0 && old(visited).size() == 0 && fully_walled(
                old(tiles).vec@,
            )),
            fresh ==> carved_tree(tiles.vec@, cols, rows, *visited, start_position),
            forall|root: (usize, usize)|
                carved_tree(old(tiles).vec@, cols, rows, *old(visited), root)
                    ==> #[trigger] carved_tree(tiles.vec@, cols, rows, *visited, root),
            !unlimited ==> steps_taken <= max_steps,
            !unlimited ==> visited.size() <= size0 + steps_taken,
            size0 == (if old(stack)@.len() == 0 && !old(visited)@.contains(start_position) {
                old(visited).size() + 1int
            } else {
                old(visited).size() as int
            }),
            removed_in_pairs(old(tiles).vec@, tiles.vec@, cols, rows),
            carve_replay(state0, cols, rows, draws) == (tiles.vec@, visited@, stack@, current),
            newly_opened(old(tiles).vec@, tiles.vec@, cols, rows).finite(),
            newly_opened(old(tiles).vec@, tiles.vec@, cols, rows).len() + size0 <= visited.size(),
            !unlimited ==> carving_measure(n_cells, visited.size(), stack@.len()) + steps_taken
                == at_start,
        decreases 2 * (n_cells - visited.size()) + stack@.len(),
    {
        if !unlimited {
            steps_taken = steps_taken + 1;
        }
        let ghost vis0 = visited@;
        let ghost stack0 = stack@;
        let ghost tiles0 = tiles.vec@;
        let ghost cur0 = current;
        let ghost visited0 = *visited;
        let neighbors = get_unvisited_neighbors(
            current.0,
            current.1,
            tiles.cols,
            tiles.rows,
            visited,
        );
        proof {
            lemma_unvisited_neighbors(current, cols, rows, visited@);
            visited.lemma_size();
        }
        if neighbors.len() > 0 {
            let random_index = random_below(neighbors.len());
            let next = neighbors[random_index];
            current = carve_toward(tiles, visited, stack, current, next);
            proof {
                let draws0 = draws;
                draws = draws0.push(random_index);
                assert(draws.drop_last() =~= draws0);
                lemma_carve_only_carved(tiles0, cols, rows, cur0, next);
                lemma_only_carved_trans(old(tiles).vec@, tiles0, tiles.vec@);
                lemma_carve_removed_in_pairs(tiles0, cols, rows, cur0, next);
                lemma_removed_in_pairs_trans(old(tiles).vec@, tiles0, tiles.vec@, cols, rows);
                let key = canonical_pair(cur0, next);
                assert forall|k: ((usize, usize), (usize, usize))|
                    #[trigger] newly_opened(old(tiles).vec@, tiles.vec@, cols, rows).contains(
                        k,
                    ) implies newly_opened(old(tiles).vec@, tiles0, cols, rows).insert(key).contains(
                    k,
                ) by {
                    lemma_carve_is_open(tiles0, cols, rows, cur0, next, k.0, k.1);
                }
                vstd::set_lib::lemma_len_subset(
                    newly_opened(old(tiles).vec@, tiles.vec@, cols, rows),
                    newly_opened(old(tiles).vec@, tiles0, cols, rows).insert(key),
                );
                if fresh {
                    lemma_carve_grows_tree(
                        tiles0,
                        cols,
                        rows,
                        visited0,
                        *visited,
                        start_position,
                        cur0,
                        next,
                    );
                }
                assert forall|root: (usize, usize)|
                    carved_tree(old(tiles).vec@, cols, rows, *old(visited), root) implies #[trigger] carved_tree(
                    tiles.vec@,
                    cols,
                    rows,
                    *visited,
                    root,
                ) by {
                    assert(carved_tree(tiles0, cols, rows, visited0, root));
                    lemma_carve_grows_tree(tiles0, cols, rows, visited0, *visited, root, cur0, next);
                }
                visited.lemma_size();
                if stack0.len() == 0 {
                    assert(vis0.contains(next));
                }
                assert forall|v: (usize, usize), n: (usize, usize)|
                    #![trigger visited@.contains(v), adjacent(v, n)]
                    visited@.contains(v) && v != current && !stack@.contains(v) && in_grid(
                        n,
                        cols,
                        rows,
                    ) && adjacent(v, n) implies visited@.contains(n) by {
                    assert(vis0.contains(v));
                    assert(v != cur0) by {
                        assert(stack@[stack@.len() - 1] == cur0);
                    }
                    if stack0.contains(v) {
                        let k = choose|k: int| 0 <= k < stack0.len() && stack0[k] == v;
                        assert(stack@[k] == v);
                    }
                }
                assert forall|i: int| 0 <= i < stack@.len() implies visited@.contains(
                    #[trigger] stack@[i],
                ) by {
                    if i < stack0.len() {
                        assert(stack@[i] == stack0[i]);
                    }
                }
            }
        } else if stack.len() > 0 {
            current = stack.pop().unwrap();
            proof {
                let draws0 = draws;
                draws = draws0.push(0);
                assert(draws.drop_last() =~= draws0);
                assert(stack@ =~= stack0.drop_last());
                assert(vis0.contains(stack0[stack0.len() - 1]));
                assert forall|v: (usize, usize), n: (usize, usize)|
                    #![trigger visited@.contains(v), adjacent(v, n)]
                    visited@.contains(v) && v != current && !stack@.contains(v) && in_grid(
                        n,
                        cols,
                        rows,
                    ) && adjacent(v, n) implies visited@.contains(n) by {
                    if v != cur0 {
                        if stack0.contains(v) {
                            let k = choose|k: int| 0 <= k < stack0.len() && stack0[k] == v;
                            if k < stack0.len() - 1 {
                                assert(stack@[k] == v);
                            }
                        }
                    } else {
                        if !visited@.contains(n) {
                            assert(neighbors@.contains(n));
                        }
                    }
                }
                assert forall|i: int| 0 <= i < stack@.len() implies visited@.contains(
                    #[trigger] stack@[i],
                ) by {
                    assert(stack@[i] == stack0[i]);
                }
                if stack@.len() == 0 {
                    assert(current == cur0);
                    assert(closed_under_adjacency(visited@, cols, rows)) by {
                        assert forall|v: (usize, usize), n: (usize, usize)|
                            #![trigger visited@.contains(v), adjacent(v, n)]
                            visited@.contains(v) && in_grid(n, cols, rows) && adjacent(
                                v,
                                n,
                            ) implies visited@.contains(n) by {
                            if v == current && !visited@.contains(n) {
                                assert(neighbors@.contains(n));
                            }
                        }
                    }
                    lemma_closed_is_everything(visited@, cols, rows, current);
                }
            }
        } else {
            // The stack runs empty only once every cell is visited, and then
            // the loop has already stopped.
            proof {
                visited.lemma_size();
                assert(false);
            }
        }
    }
    proof {
        visited.lemma_size();
        assert(rows * cols == cols * rows) by (nonlinear_arith);
        if pairs_consistent(old(tiles).vec@, cols, rows) {
            lemma_pairs_stay_consistent(old(tiles).vec@, tiles.vec@, cols, rows);
        }
        if old(stack)@.len() == 0 {
            let first_state = (
                old(tiles).vec@,
                old(visited)@.insert(start_position),
                seq![start_position],
                start_position,
            );
            assert(first_state == state0);
            assert(carve_replay(first_state, cols, rows, draws) == (
                tiles.vec@,
                visited@,
                stack@,
                current,
            ));
        } else {
            let first_state = (old(tiles).vec@, old(visited)@, old(stack)@, start_position);
            assert(first_state == state0);
            assert(carve_replay(first_state, cols, rows, draws) == (
                tiles.vec@,
                visited@,
                stack@,
                current,
            ));
        }
        if max_steps == 0 && fresh {
            lemma_finished_carving_spans(tiles.vec@, cols, rows, *visited, start_position);
        }
    }
    current
}

/// The internal walls that stand in `before` and are gone in `after`.
pub open spec fn newly_opened(
    before: Seq<Tile>,
    after: Seq<Tile>,
    cols: usize,
    rows: usize,
) -> Set<((usize, usize), (usize, usize))> {
    Set::new(
        |k: ((usize, usize), (usize, usize))|
            is_internal_wall(k, cols, rows) && !is_open(before, cols, k.0, k.1) && is_open(
                after,
                cols,
                k.0,
                k.1,
            ),
    )
}

/// The number of internal walls of a grid: one per pair of adjacent cells.
pub open spec fn internal_wall_count(rows: usize, cols: usize) -> int {
    (rows - 1) * cols + (cols - 1) * rows
}

/// How many walls the braid pass aims to remove for a fraction given in
/// millionths (clamped to one whole).
pub open spec fn braid_target(rows: usize, cols: usize, per_million: u32) -> int {
    let p: int = if per_million > 1_000_000 {
        1_000_000
    } else {
        per_million as int
    };
    internal_wall_count(rows, cols) * p / 1_000_000
}

/// Whether `removed` holds the key `key`.
fn holds_pair(
    removed: &Vec<((usize, usize), (usize, usize))>,
    key: ((usize, usize), (usize, usize)),
) -> (r: bool)
    ensures
        r == removed@.contains(key),
{
    let mut i: usize = 0;
    while i < removed.len()
        invariant
            i <= removed@.len(),
            forall|j: int| 0 <= j < i ==> removed@[j] != key,
        decreases removed@.len() - i,
    {
        let k = removed[i];
        if k.0.0 == key.0.0 && k.0.1 == key.0.1 && k.1.0 == key.1.0 && k.1.1 == key.1.1 {
            return true;
        }
        i = i + 1;
    }
    false
}

/// One braid attempt on cells `v` with recorded keys `removed`, for the draw
/// `d` = (column, row, direction): the new cells, the new keys, and whether a
/// wall pair was removed.
pub open spec fn braid_attempt(
    v: Seq<Tile>,
    removed: Seq<((usize, usize), (usize, usize))>,
    cols: usize,
    rows: usize,
    d: (usize, usize, usize),
) -> (Seq<Tile>, Seq<((usize, usize), (usize, usize))>, bool) {
    let p = (d.0, d.1);
    match neighbor_in(p, d.2, cols, rows) {
        Some(n) => {
            let key = canonical_pair(p, n);
            if !removed.contains(key) && v[pos_index(cols, p)].walls.has(side_toward(p, n)) {
                (carve_between(v, cols, p, n), removed.push(key), true)
            } else {
                (v, removed, false)
            }
        },
        None => (v, removed, false),
    }
}

/// The braid pass replayed on the draws `draws`, one attempt each, in order,
/// starting from cells `v` and no recorded keys: the cells and keys after.
pub open spec fn braid_replay(
    v: Seq<Tile>,
    cols: usize,
    rows: usize,
    draws: Seq<(usize, usize, usize)>,
) -> (Seq<Tile>, Seq<((usize, usize), (usize, usize))>)
    decreases draws.len(),
{
    if draws.len() == 0 {
        (v, Seq::empty())
    } else {
        let before = braid_replay(v, cols, rows, draws.drop_last());
        let after = braid_attempt(before.0, before.1, cols, rows, draws.last());
        (after.0, after.1)
    }
}

/// One attempt of the braid pass at cell `(col, row)` in direction
/// `direction` (0 right, 1 bottom, 2 left, 3 top). When the neighbour there
/// exists, the pair was not removed before, and the cell still has its wall
/// on that side, the wall pair is carved away, its key recorded, and the
/// attempt reports `true`; otherwise nothing changes.
pub fn try_remove_wall(
    tiles: &mut Vec2d<Tile>,
    removed: &mut Vec<((usize, usize), (usize, usize))>,
    col: usize,
    row: usize,
    direction: usize,
) -> (r: bool)
    requires
        old(tiles).wf(),
        col < old(tiles).cols,
        row < old(tiles).rows,
    ensures
        final(tiles).rows == old(tiles).rows,
        final(tiles).cols == old(tiles).cols,
        (final(tiles).vec@, final(removed)@, r) == braid_attempt(
            old(tiles).vec@,
            old(removed)@,
            old(tiles).cols,
            old(tiles).rows,
            (col, row, direction),
        ),
{
    let neighbor: Option<(usize, usize)> = if direction == 0 {
        if col < tiles.cols - 1 {
            Some((col + 1, row))
        } else {
            None
        }
    } else if direction == 1 {
        if row < tiles.rows - 1 {
            Some((col, row + 1))
        } else {
            None
        }
    } else if direction == 2 {
        if col > 0 {
            Some((col - 1, row))
        } else {
            None
        }
    } else if direction == 3 {
        if row > 0 {
            Some((col, row - 1))
        } else {
            None
        }
    } else {
        None
    };
    match neighbor {
        Some((n_col, n_row)) => {
            // Order the pair so that each wall has one key.
            let connection = if col < n_col || (col == n_col && row < n_row) {
                ((col, row), (n_col, n_row))
            } else {
                ((n_col, n_row), (col, row))
            };
            if holds_pair(removed, connection) {
                return false;
            }
            let has_wall = if direction == 0 {
                tiles.index(col, row).walls.contains(&Wall::Right)
            } else if direction == 1 {
                tiles.index(col, row).walls.contains(&Wall::Bottom)
            } else if direction == 2 {
                tiles.index(col, row).walls.contains(&Wall::Left)
            } else {
                tiles.index(col, row).walls.contains(&Wall::Top)
            };
            if has_wall {
                remove_walls_between_positions(tiles, (col, row), (n_col, n_row));
                removed.push(connection);
                true
            } else {
                false
            }
        },
        None => false,
    }
}

/// Adds loops to a finished maze: removes about `per_million` millionths
/// (clamped to one whole) of the grid's internal walls, picked at random,
/// and returns how many it removed and how many attempts it made.
///
/// Each attempt draws a cell and a direction; it removes the wall pair there
/// only if the neighbour exists, the pair was not removed before, and the
/// wall still stands. The pass stops at its target or after five attempts
/// per internal wall.
pub fn remove_random_walls(tiles: &mut Vec2d<Tile>, per_million: u32) -> (r: (usize, usize))
    requires
        old(tiles).wf(),
        old(tiles).rows >= 1,
        old(tiles).cols >= 1,
        old(tiles).rows <= u32::MAX,
        old(tiles).cols <= u32::MAX,
        old(tiles).rows * old(tiles).cols <= usize::MAX / 10,
    ensures
        final(tiles).rows == old(tiles).rows,
        final(tiles).cols == old(tiles).cols,
        only_carved(old(tiles).vec@, final(tiles).vec@),
        removed_in_pairs(old(tiles).vec@, final(tiles).vec@, old(tiles).cols, old(tiles).rows),
        pairs_consistent(old(tiles).vec@, old(tiles).cols, old(tiles).rows) ==> pairs_consistent(
            final(tiles).vec@,
            old(tiles).cols,
            old(tiles).rows,
        ),
        r.0 <= braid_target(old(tiles).rows, old(tiles).cols, per_million),
        r.1 <= 5 * internal_wall_count(old(tiles).rows, old(tiles).cols),
        r.0 == braid_target(old(tiles).rows, old(tiles).cols, per_million) || r.1 == 5
            * internal_wall_count(old(tiles).rows, old(tiles).cols),
        newly_opened(old(tiles).vec@, final(tiles).vec@, old(tiles).cols, old(tiles).rows).finite(),
        r.0 == newly_opened(
            old(tiles).vec@,
            final(tiles).vec@,
            old(tiles).cols,
            old(tiles).rows,
        ).len(),
        exists|draws: Seq<(usize, usize, usize)>|
            {
                let replayed = #[trigger] braid_replay(
                    old(tiles).vec@,
                    old(tiles).cols,
                    old(tiles).rows,
                    draws,
                );
                &&& draws.len() == r.1
                &&& forall|i: int|
                    0 <= i < draws.len() ==> #[trigger] draws[i].0 < old(tiles).cols && draws[i].1
                        < old(tiles).rows && draws[i].2 < 4
                &&& replayed.0 == final(tiles).vec@
                &&& replayed.1.len() == r.0
                &&& forall|k: int|
                    0 <= k < draws.len() ==> (#[trigger] braid_replay(
                        old(tiles).vec@,
                        old(tiles).cols,
                        old(tiles).rows,
                        draws.take(k),
                    )).1.len() < braid_target(old(tiles).rows, old(tiles).cols, per_million)
            },
        braid_target(old(tiles).rows, old(tiles).cols, per_million) == 0 ==> final(tiles).vec@
            == old(tiles).vec@ && r.1 == 0,
        per_million == 0 ==> r.0 == 0 && r.1 == 0 && final(tiles).vec@ == old(tiles).vec@,
{
    let ghost cols = tiles.cols;
    let ghost rows = tiles.rows;
    let ghost start = tiles.vec@;
    let per_million = if per_million > 1_000_000 {
        1_000_000
    } else {
        per_million
    };
    proof {
        assert((rows - 1) * cols <= rows * cols) by (nonlinear_arith)
            requires
                rows >= 1,
                cols >= 1,
        ;
        assert((cols - 1) * rows <= rows * cols) by (nonlinear_arith)
            requires
                rows >= 1,
                cols >= 1,
        ;
    }
    let total_internal_walls = (tiles.rows - 1) * tiles.cols + (tiles.cols - 1) * tiles.rows;
    proof {
        assert(total_internal_walls as int * per_million as int / 1_000_000 <= total_internal_walls)
            by (nonlinear_arith)
            requires
                0 <= per_million <= 1_000_000,
                total_internal_walls >= 0,
        ;
        assert(0 <= total_internal_walls as int * per_million as int / 1_000_000) by (nonlinear_arith)
            requires
                0 <= per_million <= 1_000_000,
                total_internal_walls >= 0,
        ;
    }
    let walls_to_remove = ((total_internal_walls as u128) * (per_million as u128)
        / 1_000_000u128) as usize;
    proof {
        if per_million == 0 {
            assert(total_internal_walls as int * per_million as int == 0) by (nonlinear_arith)
                requires
                    per_million == 0,
            ;
        }
    }
    let mut removed_connections: Vec<((usize, usize), (usize, usize))> = Vec::new();
    let mut count: usize = 0;
    let mut attempts: usize = 0;
    // A bound on attempts keeps the pass finite when the target cannot be met.
    let max_attempts = total_internal_walls * 5;
    let ghost mut draws: Seq<(usize, usize, usize)> = Seq::empty();
    proof {
        lemma_only_carved_refl(start);
        lemma_removed_in_pairs_refl(start, cols, rows);
        assert(newly_opened(start, start, cols, rows) =~= removed_connections@.to_set());
        assert(removed_connections@ =~= Seq::empty());
    }
    while count < walls_to_remove && attempts < max_attempts
        invariant
            tiles.wf(),
            tiles.cols == cols,
            tiles.rows == rows,
            start.len() == rows * cols,
            1 <= rows <= u32::MAX,
            1 <= cols <= u32::MAX,
            only_carved(start, tiles.vec@),
            count == removed_connections@.len(),
            count <= walls_to_remove,
            walls_to_remove == braid_target(rows, cols, per_million),
            removed_connections@.no_duplicates(),
            newly_opened(start, tiles.vec@, cols, rows) == removed_connections@.to_set(),
            walls_to_remove == 0 ==> tiles.vec@ == start && attempts == 0,
            max_attempts == 5 * internal_wall_count(rows, cols),
            attempts <= max_attempts,
            removed_in_pairs(start, tiles.vec@, cols, rows),
            draws.len() == attempts,
            forall|i: int|
                0 <= i < draws.len() ==> #[trigger] draws[i].0 < cols && draws[i].1 < rows
                    && draws[i].2 < 4,
            braid_replay(start, cols, rows, draws) == (tiles.vec@, removed_connections@),
            forall|k: int|
                0 <= k < draws.len() ==> (#[trigger] braid_replay(
                    start,
                    cols,
                    rows,
                    draws.take(k),
                )).1.len() < walls_to_remove,
        decreases max_attempts - attempts,
    {
        attempts = attempts + 1;
        let col = random_below(tiles.cols);
        let row = random_below(tiles.rows);
        let direction = random_below(4);
        let ghost before = tiles.vec@;
        let ghost removed_before = removed_connections@;
        let ghost draws0 = draws;
        let removed_one = try_remove_wall(tiles, &mut removed_connections, col, row, direction);
        proof {
            draws = draws0.push((col, row, direction));
            assert(draws.drop_last() =~= draws0);
            assert forall|k: int|
                0 <= k < draws.len() implies (#[trigger] braid_replay(
                start,
                cols,
                rows,
                draws.take(k),
            )).1.len() < walls_to_remove by {
                if k < draws0.len() {
                    assert(draws.take(k) =~= draws0.take(k));
                } else {
                    assert(draws.take(k) =~= draws0);
                }
            }
            assert forall|i: int|
                0 <= i < draws.len() implies #[trigger] draws[i].0 < cols && draws[i].1 < rows
                && draws[i].2 < 4 by {
                if i < draws0.len() {
                    assert(draws[i] == draws0[i]);
                }
            }
        }
        if removed_one {
            proof {
                let p = (col, row);
                let n = neighbor_in(p, direction, cols, rows)->Some_0;
                let key = canonical_pair(p, n);
                lemma_carve_only_carved(before, cols, rows, p, n);
                lemma_only_carved_trans(start, before, tiles.vec@);
                lemma_carve_removed_in_pairs(before, cols, rows, p, n);
                lemma_removed_in_pairs_trans(start, before, tiles.vec@, cols, rows);
                lemma_adjacent_distinct(cols, rows, p, n);
                // The pair stood before this attempt, so it stood at the start.
                assert(!is_open(before, cols, p, n));
                assert(start[pos_index(cols, p)].walls.has(side_toward(p, n))) by {
                    assert(before[pos_index(cols, p)].walls.subset_of(
                        start[pos_index(cols, p)].walls,
                    ));
                }
                assert(!removed_before.contains(key));
                assert forall|k: ((usize, usize), (usize, usize))|
                    #[trigger] newly_opened(start, tiles.vec@, cols, rows).contains(k)
                        <==> newly_opened(start, before, cols, rows).insert(key).contains(k) by {
                    if is_internal_wall(k, cols, rows) {
                        lemma_carve_is_open(before, cols, rows, p, n, k.0, k.1);
                    }
                }
                assert(newly_opened(start, tiles.vec@, cols, rows) =~= newly_opened(
                    start,
                    before,
                    cols,
                    rows,
                ).insert(key));
                removed_before.lemma_push_to_set_commute(key);
                assert(removed_connections@.no_duplicates()) by {
                    assert forall|i: int, j: int|
                        0 <= i < j < removed_connections@.len() implies removed_connections@[i]
                        != removed_connections@[j] by {
                        if j == removed_connections@.len() - 1 {
                            assert(removed_before.contains(removed_connections@[i]));
                        } else {
                            assert(removed_connections@[i] == removed_before[i]);
                            assert(removed_connections@[j] == removed_before[j]);
                        }
                    }
                }
            }
            count = count + 1;
        }
    }
    proof {
        removed_connections@.unique_seq_to_set();
        if pairs_consistent(start, cols, rows) {
            lemma_pairs_stay_consistent(start, tiles.vec@, cols, rows);
        }
        assert(braid_replay(start, cols, rows, draws).0 == tiles.vec@);
    }
    (count, attempts)
}

/// The places of the cells marked as exit.
pub open spec fn exit_cells(v: Seq<Tile>) -> Set<int> {
    Set::new(|i: int| 0 <= i < v.len() && v[i].exit)
}

/// Marks cell `(col, row)` as the exit; nothing else changes.
pub fn mark_exit(tiles: &mut Vec2d<Tile>, col: usize, row: usize)
    requires
        old(tiles).wf(),
        col < old(tiles).cols,
        row < old(tiles).rows,
    ensures
        final(tiles).rows == old(tiles).rows,
        final(tiles).cols == old(tiles).cols,
        final(tiles).vec@ == old(tiles).vec@.update(
            pos_index(old(tiles).cols, (col, row)),
            old(tiles).vec@[pos_index(old(tiles).cols, (col, row))].as_exit(),
        ),
        exit_cells(final(tiles).vec@) == exit_cells(old(tiles).vec@).insert(
            pos_index(old(tiles).cols, (col, row)),
        ),
{
    proof {
        lemma_cell_index_bounds(tiles.cols as int, tiles.rows as int, col as int, row as int);
    }
    let tile = tiles.index_mut(col, row);
    tile.exit = true;
    tile.color = TileColor::Exit;
    assert(exit_cells(tiles.vec@) =~= exit_cells(old(tiles).vec@).insert(
        pos_index(old(tiles).cols, (col, row)),
    ));
}

/// Picks a cell uniformly at random and marks it as the exit. On a grid
/// without an exit, exactly one cell is the exit afterwards.
pub fn choose_exit_tile(tiles: &mut Vec2d<Tile>)
    requires
        old(tiles).wf(),
        1 <= old(tiles).cols <= u32::MAX,
        1 <= old(tiles).rows <= u32::MAX,
    ensures
        final(tiles).rows == old(tiles).rows,
        final(tiles).cols == old(tiles).cols,
        exists|col: usize, row: usize|
            #![trigger pos_index(old(tiles).cols, (col, row))]
            in_grid((col, row), old(tiles).cols, old(tiles).rows) && final(tiles).vec@
                == old(tiles).vec@.update(
                pos_index(old(tiles).cols, (col, row)),
                old(tiles).vec@[pos_index(old(tiles).cols, (col, row))].as_exit(),
            ) && exit_cells(final(tiles).vec@) == exit_cells(old(tiles).vec@).insert(
                pos_index(old(tiles).cols, (col, row)),
            ),
        exit_cells(old(tiles).vec@) == Set::<int>::empty() ==> exists|i: int|
            0 <= i < final(tiles).vec@.len() && exit_cells(final(tiles).vec@) == set![i],
{
    let col = random_below(tiles.cols);
    let row = random_below(tiles.rows);
    mark_exit(tiles, col, row);
    proof {
        let i = pos_index(old(tiles).cols, (col, row));
        lemma_cell_index_bounds(tiles.cols as int, tiles.rows as int, col as int, row as int);
        assert(Set::<int>::empty().insert(i) =~= set![i]);
    }
}

/// How many tiles fit along the longer side of the screen.
pub const NUMBER_OF_TILES_IN_BIGGER_AXIS: u16 = 30;

/// The side of a square tile for a screen of the given size in pixels.
pub open spec fn tile_size_for(screen_width: u16, screen_height: u16) -> int {
    (if screen_width > screen_height {
        screen_width as int
    } else {
        screen_height as int
    }) / (NUMBER_OF_TILES_IN_BIGGER_AXIS as int)
}

/// The tile at `(col, row)` of a freshly laid out grid: fully walled, not
/// the exit, drawn at its place in a grid centred on the screen.
pub open spec fn fresh_tile(screen_width: u16, screen_height: u16, col: int, row: int) -> Tile {
    let ts = tile_size_for(screen_width, screen_height);
    Tile {
        col: col as usize,
        row: row as usize,
        walls: WallSet { left: true, top: true, right: true, bottom: true },
        x: (col * ts + (screen_width as int % ts) / 2) as u16,
        y: (row * ts + (screen_height as int % ts) / 2) as u16,
        width: ts as u16,
        height: ts as u16,
        color: TileColor::Wall,
        exit: false,
    }
}

/// Lays out a fully walled grid of square tiles for a screen of
/// `screen_width` by `screen_height` pixels: the longer side holds
/// [`NUMBER_OF_TILES_IN_BIGGER_AXIS`] tiles, as many whole tiles as fit go
/// along the other, and the leftover pixels are split evenly on both edges.
pub fn generate_tiles(screen_width: u16, screen_height: u16) -> (r: Vec2d<Tile>)
    requires
        tile_size_for(screen_width, screen_height) >= 1,
    ensures
        r.wf(),
        r.cols == screen_width as int / tile_size_for(screen_width, screen_height),
        r.rows == screen_height as int / tile_size_for(screen_width, screen_height),
        forall|col: int, row: int|
            0 <= col < r.cols && 0 <= row < r.rows ==> #[trigger] r.at(col, row) == fresh_tile(
                screen_width,
                screen_height,
                col,
                row,
            ),
{
    let tile_size: u16 = if screen_width > screen_height {
        screen_width / NUMBER_OF_TILES_IN_BIGGER_AXIS
    } else {
        screen_height / NUMBER_OF_TILES_IN_BIGGER_AXIS
    };
    let tiles_w: u16 = screen_width / tile_size;
    let tiles_h: u16 = screen_height / tile_size;
    let reminder_w: u16 = screen_width % tile_size;
    let reminder_h: u16 = screen_height % tile_size;
    let first_x = reminder_w / 2;
    let first_y = reminder_h / 2;
    let ghost ts = tile_size as int;
    let ghost cols = tiles_w as int;
    proof {
        vstd::arithmetic::div_mod::lemma_fundamental_div_mod(screen_width as int, ts);
        vstd::arithmetic::div_mod::lemma_fundamental_div_mod(screen_height as int, ts);
    }
    let mut tiles: Vec<Tile> = Vec::new();
    let mut y: u16 = 0;
    while y < tiles_h
        invariant
            ts == tile_size_for(screen_width, screen_height),
            ts >= 1,
            tile_size as int == ts,
            tiles_w as int == screen_width as int / ts,
            tiles_h as int == screen_height as int / ts,
            screen_width == ts * tiles_w + reminder_w,
            screen_height == ts * tiles_h + reminder_h,
            0 <= reminder_w < ts,
            0 <= reminder_h < ts,
            reminder_w as int == screen_width as int % ts,
            reminder_h as int == screen_height as int % ts,
            first_x == reminder_w / 2,
            first_y == reminder_h / 2,
            cols == tiles_w,
            y <= tiles_h,
            tiles@.len() == y * cols,
            forall|i: int|
                0 <= i < tiles@.len() ==> #[trigger] tiles@[i] == fresh_tile(
                    screen_width,
                    screen_height,
                    i % cols,
                    i / cols,
                ),
        decreases tiles_h - y,
    {
        let mut x: u16 = 0;
        while x < tiles_w
            invariant
                ts == tile_size_for(screen_width, screen_height),
                ts >= 1,
                tile_size as int == ts,
                tiles_w as int == screen_width as int / ts,
                tiles_h as int == screen_height as int / ts,
                screen_width == ts * tiles_w + reminder_w,
                screen_height == ts * tiles_h + reminder_h,
                0 <= reminder_w < ts,
                0 <= reminder_h < ts,
                reminder_w as int == screen_width as int % ts,
                reminder_h as int == screen_height as int % ts,
                first_x == reminder_w / 2,
                first_y == reminder_h / 2,
                cols == tiles_w,
                y < tiles_h,
                x <= tiles_w,
                tiles@.len() == y * cols + x,
                forall|i: int|
                    0 <= i < tiles@.len() ==> #[trigger] tiles@[i] == fresh_tile(
                        screen_width,
                        screen_height,
                        i % cols,
                        i / cols,
                    ),
            decreases tiles_w - x,
        {
            proof {
                assert(x * ts + ts <= tiles_w * ts) by (nonlinear_arith)
                    requires
                        x < tiles_w,
                        ts >= 1,
                ;
                assert(y * ts + ts <= tiles_h * ts) by (nonlinear_arith)
                    requires
                        y < tiles_h,
                        ts >= 1,
                ;
                vstd::arithmetic::div_mod::lemma_fundamental_div_mod_converse(
                    y * cols + x,
                    cols,
                    y as int,
                    x as int,
                );
            }
            let ghost old_tiles = tiles@;
            tiles.push(
                Tile::new(
                    x as usize,
                    y as usize,
                    x * tile_size + first_x,
                    y * tile_size + first_y,
                    tile_size,
                    tile_size,
                    TileColor::Wall,
                ),
            );
            proof {
                assert forall|i: int| 0 <= i < tiles@.len() implies #[trigger] tiles@[i] == fresh_tile(
                    screen_width,
                    screen_height,
                    i % cols,
                    i / cols,
                ) by {
                    if i < old_tiles.len() {
                        assert(tiles@[i] == old_tiles[i]);
                    } else {
                        assert(tiles@[i].walls == WallSet {
                            left: true,
                            top: true,
                            right: true,
                            bottom: true,
                        });
                    }
                }
            }
            x = x + 1;
        }
        proof {
            assert((y + 1) * cols == y * cols + cols) by (nonlinear_arith);
        }
        y = y + 1;
    }
    let r = Vec2d { vec: tiles, rows: tiles_h as usize, cols: tiles_w as usize };
    proof {
        assert forall|col: int, row: int|
            0 <= col < r.cols && 0 <= row < r.rows implies #[trigger] r.at(col, row) == fresh_tile(
                screen_width,
                screen_height,
                col,
                row,
            ) by {
            lemma_cell_index_bounds(cols, tiles_h as int, col, row);
            vstd::arithmetic::div_mod::lemma_fundamental_div_mod_converse(
                row * cols + col,
                cols,
                row,
                col,
            );
        }
    }
    r
}

} // verus!
