use vstd::prelude::*;

use crate::utils::{cell_index, lemma_cell_index_bounds, lemma_cell_index_injective};

verus! {

/// How many entries of `s` are set.
pub open spec fn count_marked(s: Seq<bool>) -> nat
    decreases s.len(),
{
    if s.len() == 0 {
        0
    } else {
        count_marked(s.drop_last()) + if s.last() {
            1nat
        } else {
            0nat
        }
    }
}

proof fn lemma_count_bound(s: Seq<bool>)
    ensures
        count_marked(s) <= s.len(),
    decreases s.len(),
{
    if s.len() > 0 {
        lemma_count_bound(s.drop_last());
    }
}

proof fn lemma_count_none(s: Seq<bool>)
    requires
        forall|j: int| 0 <= j < s.len() ==> !s[j],
    ensures
        count_marked(s) == 0,
    decreases s.len(),
{
    if s.len() > 0 {
        lemma_count_none(s.drop_last());
    }
}

proof fn lemma_count_all(s: Seq<bool>)
    ensures
        count_marked(s) == s.len() <==> forall|j: int| 0 <= j < s.len() ==> s[j],
    decreases s.len(),
{
    if s.len() > 0 {
        let t = s.drop_last();
        lemma_count_all(t);
        lemma_count_bound(t);
        if forall|j: int| 0 <= j < s.len() ==> s[j] {
            assert forall|j: int| 0 <= j < t.len() implies t[j] by {
                assert(s[j]);
            }
        }
        if count_marked(s) == s.len() {
            assert forall|j: int| 0 <= j < s.len() implies s[j] by {
                if j < s.len() - 1 {
                    assert(t[j]);
                }
            }
        }
    }
}

proof fn lemma_count_zero(s: Seq<bool>)
    requires
        count_marked(s) == 0,
    ensures
        forall|j: int| 0 <= j < s.len() ==> !s[j],
    decreases s.len(),
{
    if s.len() > 0 {
        lemma_count_zero(s.drop_last());
        assert forall|j: int| 0 <= j < s.len() implies !s[j] by {
            if j < s.len() - 1 {
                assert(!s.drop_last()[j]);
            }
        }
    }
}

proof fn lemma_count_set(s: Seq<bool>, i: int)
    requires
        0 <= i < s.len(),
        !s[i],
    ensures
        count_marked(s.update(i, true)) == count_marked(s) + 1,
    decreases s.len(),
{
    let u = s.update(i, true);
    if i == s.len() - 1 {
        assert(u.drop_last() =~= s.drop_last());
    } else {
        lemma_count_set(s.drop_last(), i);
        assert(u.drop_last() =~= s.drop_last().update(i, true));
    }
}

/// A set of cells of a `cols` by `rows` grid.
pub struct CellSet {
    marks: Vec<bool>,
    cols: usize,
    rows: usize,
    count: usize,
}

impl View for CellSet {
    type V = Set<(usize, usize)>;

    closed spec fn view(&self) -> Set<(usize, usize)> {
        Set::new(
            |p: (usize, usize)|
                p.0 < self.cols && p.1 < self.rows && self.marks@[cell_index(
                    self.cols as int,
                    p.0 as int,
                    p.1 as int,
                )],
        )
    }
}

impl CellSet {
    pub closed spec fn wf(&self) -> bool {
        &&& self.marks@.len() == self.rows * self.cols
        &&& self.count == count_marked(self.marks@)
    }

    pub closed spec fn cols_spec(&self) -> usize {
        self.cols
    }

    pub closed spec fn rows_spec(&self) -> usize {
        self.rows
    }

    /// The number of cells in the set.
    pub closed spec fn size(&self) -> nat {
        self.count as nat
    }

    /// The set holds only cells of the grid, and holds every one of them
    /// exactly when its size is `cols * rows`.
    pub proof fn lemma_size(&self)
        requires
            self.wf(),
        ensures
            self.size() <= self.cols_spec() * self.rows_spec(),
            forall|p: (usize, usize)| #[trigger]
                self@.contains(p) ==> p.0 < self.cols_spec() && p.1 < self.rows_spec(),
            self.size() == self.cols_spec() * self.rows_spec() <==> forall|p: (usize, usize)|
                p.0 < self.cols_spec() && p.1 < self.rows_spec() ==> #[trigger] self@.contains(p),
            self.size() == 0 ==> self@ == Set::<(usize, usize)>::empty(),
    {
        let s = self.marks@;
        let cols = self.cols as int;
        let rows = self.rows as int;
        lemma_count_bound(s);
        assert(self.rows * self.cols == self.cols * self.rows) by (nonlinear_arith);
        lemma_count_all(s);
        if forall|p: (usize, usize)| p.0 < self.cols && p.1 < self.rows ==> #[trigger] self@.contains(p) {
            assert forall|j: int| 0 <= j < s.len() implies s[j] by {
                assert(cols > 0) by (nonlinear_arith)
                    requires
                        0 <= j < rows * cols,
                        0 <= rows,
                        0 <= cols,
                ;
                let c = j % cols;
                let r = j / cols;
                assert(j == r * cols + c && 0 <= c < cols && 0 <= r) by (nonlinear_arith)
                    requires
                        cols > 0,
                        c == j % cols,
                        r == j / cols,
                        0 <= j,
                ;
                assert(r < rows) by (nonlinear_arith)
                    requires
                        j == r * cols + c,
                        0 <= c < cols,
                        j < rows * cols,
                        0 <= r,
                ;
                assert(self@.contains((c as usize, r as usize)));
            }
        }
        if self.size() == self.cols * self.rows {
            assert forall|p: (usize, usize)| p.0 < self.cols && p.1 < self.rows implies #[trigger]
                self@.contains(p) by {
                lemma_cell_index_bounds(cols, rows, p.0 as int, p.1 as int);
            }
        }
        if self.size() == 0 {
            lemma_count_zero(s);
            assert forall|p: (usize, usize)| !#[trigger] self@.contains(p) by {
                if p.0 < self.cols && p.1 < self.rows {
                    lemma_cell_index_bounds(cols, rows, p.0 as int, p.1 as int);
                }
            }
            assert(self@ =~= Set::<(usize, usize)>::empty());
        }
    }

    /// The empty set of cells of a `cols` by `rows` grid.
    pub fn new(cols: usize, rows: usize) -> (r: CellSet)
        requires
            cols * rows <= usize::MAX,
        ensures
            r.wf(),
            r@ == Set::<(usize, usize)>::empty(),
            r.size() == 0,
            r.cols_spec() == cols,
            r.rows_spec() == rows,
    {
        assert(cols * rows == rows * cols) by (nonlinear_arith);
        let n = rows * cols;
        let marks: Vec<bool> = vec![false; n];
        proof {
            lemma_count_none(marks@);
        }
        let r = CellSet { marks, cols, rows, count: 0 };
        assert forall|p: (usize, usize)| !#[trigger] r@.contains(p) by {
            if p.0 < cols && p.1 < rows {
                lemma_cell_index_bounds(cols as int, rows as int, p.0 as int, p.1 as int);
            }
        }
        assert(r@ =~= Set::<(usize, usize)>::empty());
        r
    }

    pub fn cols(&self) -> (r: usize)
        ensures
            r == self.cols_spec(),
    {
        self.cols
    }

    pub fn rows(&self) -> (r: usize)
        ensures
            r == self.rows_spec(),
    {
        self.rows
    }

    /// The number of cells in the set.
    pub fn len(&self) -> (r: usize)
        requires
            self.wf(),
        ensures
            r == self.size(),
    {
        self.count
    }

    pub fn contains(&self, col: usize, row: usize) -> (r: bool)
        requires
            self.wf(),
        ensures
            r == self@.contains((col, row)),
    {
        if col < self.cols && row < self.rows {
            proof {
                lemma_cell_index_bounds(self.cols as int, self.rows as int, col as int, row as int);
                assert(self.marks.len() <= usize::MAX);
            }
            self.marks[row * self.cols + col]
        } else {
            false
        }
    }

    /// Adds cell `(col, row)`; reports whether it was new.
    pub fn insert(&mut self, col: usize, row: usize) -> (r: bool)
        requires
            old(self).wf(),
            col < old(self).cols_spec(),
            row < old(self).rows_spec(),
        ensures
            final(self).wf(),
            final(self).cols_spec() == old(self).cols_spec(),
            final(self).rows_spec() == old(self).rows_spec(),
            final(self)@ == old(self)@.insert((col, row)),
            r == !old(self)@.contains((col, row)),
            final(self).size() == old(self).size() + if r {
                1nat
            } else {
                0nat
            },
    {
        proof {
            lemma_cell_index_bounds(self.cols as int, self.rows as int, col as int, row as int);
            assert(self.marks.len() <= usize::MAX);
            lemma_count_bound(self.marks@);
        }
        let i = row * self.cols + col;
        if self.marks[i] {
            assert(self@ =~= old(self)@.insert((col, row)));
            false
        } else {
            proof {
                lemma_count_set(self.marks@, i as int);
                lemma_count_bound(self.marks@.update(i as int, true));
            }
            self.marks.set(i, true);
            self.count = self.count + 1;
            assert forall|p: (usize, usize)| #[trigger] self@.contains(p) <==> old(self)@.insert(
                (col, row),
            ).contains(p) by {
                if p.0 < self.cols && p.1 < self.rows {
                    lemma_cell_index_bounds(
                        self.cols as int,
                        self.rows as int,
                        p.0 as int,
                        p.1 as int,
                    );
                    if cell_index(self.cols as int, p.0 as int, p.1 as int) == i {
                        lemma_cell_index_injective(
                            self.cols as int,
                            p.0 as int,
                            p.1 as int,
                            col as int,
                            row as int,
                        );
                    }
                }
            }
            assert(self@ =~= old(self)@.insert((col, row)));
            true
        }
    }
}

} // verus!
