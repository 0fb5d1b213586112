//! The occupancy grid and the per-cell storage that the planners label.
//!
//! Cells are addressed as `(row, col)`. Storage is flat, one column after the
//! other, so the cell `(row, col)` of a grid with `rows` rows lives at index
//! `col * rows + row`.

use vstd::prelude::*;

verus! {

/// A grid position as `(row, col)`.
pub type Cell = (usize, usize);

/// The largest number of cells that a grid can have. The bound keeps the
/// planners' sums of step costs within the numbers that double precision
/// tells apart by less than 1.
pub const MAX_CELLS: usize = usize::MAX / 16384;

/// The largest number of rows, and of columns, that a grid can have. The
/// bound keeps squared distances between cells within `u64`.
pub const MAX_SIDE: usize = 0x7fff_ffff;

/// Whether a grid of `rows` by `cols` cells is within the limits.
pub open spec fn fits(rows: usize, cols: usize) -> bool {
    rows <= MAX_SIDE && cols <= MAX_SIDE && rows * cols <= MAX_CELLS
}

/// Whether `c` lies on a grid of `rows` by `cols` cells.
pub open spec fn in_bounds(rows: usize, cols: usize, c: Cell) -> bool {
    c.0 < rows && c.1 < cols
}

/// The flat index of the cell `c` on a grid with `rows` rows.
pub open spec fn flat(rows: usize, c: Cell) -> int {
    c.1 * rows + c.0
}

/// The absolute difference of two coordinates.
pub open spec fn gap(a: usize, b: usize) -> int {
    if a <= b {
        b - a
    } else {
        a - b
    }
}

/// Adjacency of two cells: orthogonal steps only, or, with `eight`, diagonal
/// steps as well. A cell does not touch itself.
pub open spec fn touches(eight: bool, p: Cell, q: Cell) -> bool {
    if eight {
        p != q && gap(p.0, q.0) <= 1 && gap(p.1, q.1) <= 1
    } else {
        gap(p.0, q.0) + gap(p.1, q.1) == 1
    }
}

/// The Manhattan distance between two cells.
pub open spec fn manhattan(p: Cell, q: Cell) -> int {
    gap(p.0, q.0) + gap(p.1, q.1)
}

/// Number of elements of `s` that satisfy `p`.
spec fn seq_count<T>(s: Seq<T>, p: spec_fn(T) -> bool) -> nat
    decreases s.len(),
{
    if s.len() == 0 {
        0
    } else {
        seq_count(s.drop_last(), p) + if p(s.last()) {
            1nat
        } else {
            0nat
        }
    }
}

/// No more elements satisfy a predicate than there are elements.
proof fn lemma_seq_count_bound<T>(s: Seq<T>, p: spec_fn(T) -> bool)
    ensures
        seq_count(s, p) <= s.len(),
    decreases s.len(),
{
    if s.len() > 0 {
        lemma_seq_count_bound(s.drop_last(), p);
    }
}

/// Replacing one element moves the count by that element alone.
proof fn lemma_seq_count_update<T>(s: Seq<T>, i: int, v: T, p: spec_fn(T) -> bool)
    requires
        0 <= i < s.len(),
    ensures
        seq_count(s.update(i, v), p) + (if p(s[i]) {
            1nat
        } else {
            0nat
        }) == seq_count(s, p) + (if p(v) {
            1nat
        } else {
            0nat
        }),
    decreases s.len(),
{
    let t = s.update(i, v);
    if i == s.len() - 1 {
        assert(t.drop_last() =~= s.drop_last());
    } else {
        assert(t.drop_last() =~= s.drop_last().update(i, v));
        lemma_seq_count_update(s.drop_last(), i, v, p);
    }
}

/// A sequence in which no element satisfies `p` counts zero, and a count of
/// zero leaves no element that satisfies `p`.
proof fn lemma_seq_count_zero<T>(s: Seq<T>, p: spec_fn(T) -> bool)
    ensures
        seq_count(s, p) == 0 <==> (forall|i: int| 0 <= i < s.len() ==> !p(#[trigger] s[i])),
    decreases s.len(),
{
    if s.len() > 0 {
        lemma_seq_count_zero(s.drop_last(), p);
        if seq_count(s, p) == 0 {
            assert forall|i: int| 0 <= i < s.len() implies !p(#[trigger] s[i]) by {
                if i < s.len() - 1 {
                    assert(s.drop_last()[i] == s[i]);
                }
            }
        } else {
            if p(s.last()) {
                assert(p(s[s.len() - 1]));
            } else {
                let j = choose|j: int| 0 <= j < s.drop_last().len() && p(#[trigger] s.drop_last()[j]);
                assert(p(s[j]));
            }
        }
    }
}

/// A cell of the grid has a flat index below `rows * cols`.
proof fn lemma_flat_index(rows: int, cols: int, r: int, c: int)
    requires
        0 <= r < rows,
        0 <= c < cols,
    ensures
        0 <= c * rows + r < rows * cols,
{
    assert(c * rows <= (cols - 1) * rows) by (nonlinear_arith)
        requires
            0 <= c <= cols - 1,
            rows > 0,
    ;
    assert((cols - 1) * rows + rows == rows * cols) by (nonlinear_arith);
    assert(c * rows >= 0) by (nonlinear_arith)
        requires
            0 <= c,
            rows > 0,
    ;
}

/// Cells with the same flat index are the same cell.
proof fn lemma_flat_index_injective(rows: int, p: (int, int), q: (int, int))
    requires
        0 <= p.0 < rows,
        0 <= q.0 < rows,
        p.1 * rows + p.0 == q.1 * rows + q.0,
    ensures
        p == q,
{
    assert(p.1 == q.1) by (nonlinear_arith)
        requires
            0 <= p.0 < rows,
            0 <= q.0 < rows,
            p.1 * rows + p.0 == q.1 * rows + q.0,
    ;
}

/// One value per cell of a `rows` by `cols` grid.
pub struct CellMap<T> {
    rows: usize,
    cols: usize,
    data: Vec<T>,
}

impl<T> CellMap<T> {
    /// The storage holds one value per cell, and the shape is within the
    /// limits.
    #[verifier::type_invariant]
    pub closed spec fn inv(&self) -> bool {
        self.rows * self.cols == self.data.len() && fits(self.rows, self.cols)
    }
}

impl<T: Copy> View for CellMap<T> {
    type V = Map<Cell, T>;

    /// The stored values by cell.
    open spec fn view(&self) -> Map<Cell, T> {
        Map::new(|c: Cell| self.has(c), |c: Cell| self.at(c))
    }
}

impl<T: Copy> CellMap<T> {
    /// The number of rows.
    pub closed spec fn spec_rows(&self) -> usize {
        self.rows
    }

    /// The number of columns.
    pub closed spec fn spec_cols(&self) -> usize {
        self.cols
    }

    /// The value stored for the cell `c`.
    pub closed spec fn at(&self, c: Cell) -> T {
        self.data@[flat(self.rows, c)]
    }

    /// Whether `c` is a cell of this map.
    pub open spec fn has(&self, c: Cell) -> bool {
        in_bounds(self.spec_rows(), self.spec_cols(), c)
    }

    /// Number of cells whose value satisfies `p`.
    pub closed spec fn count(&self, p: spec_fn(T) -> bool) -> nat {
        seq_count(self.data@, p)
    }

    /// The number of cells, `rows * cols`.
    pub closed spec fn area(&self) -> nat {
        self.data@.len()
    }

    /// The stored values in storage order.
    pub closed spec fn flat_values(&self) -> Seq<T> {
        self.data@
    }

    /// A map of `rows` by `cols` cells that all hold `fill`, or `None` when
    /// the shape is beyond the limits.
    pub fn new(rows: usize, cols: usize, fill: T) -> (m: Option<CellMap<T>>)
        ensures
            m is Some <==> fits(rows, cols),
            m matches Some(map) ==> {
                &&& map.spec_rows() == rows
                &&& map.spec_cols() == cols
                &&& map.area() == rows * cols
                &&& forall|c: Cell| map.has(c) ==> #[trigger] map.at(c) == fill
            },
    {
        if rows > MAX_SIDE || cols > MAX_SIDE {
            return None;
        }
        match rows.checked_mul(cols) {
            None => None,
            Some(n) => {
                if n > MAX_CELLS {
                    return None;
                }
                let mut data: Vec<T> = Vec::with_capacity(n);
                let mut i: usize = 0;
                while i < n
                    invariant
                        i <= n,
                        data.len() == i,
                        forall|j: int| 0 <= j < i ==> data@[j] == fill,
                    decreases n - i,
                {
                    data.push(fill);
                    i += 1;
                }
                let map = CellMap { rows, cols, data };
                proof {
                    assert forall|c: Cell| map.has(c) implies #[trigger] map.at(c) == fill by {
                        lemma_flat_index(rows as int, cols as int, c.0 as int, c.1 as int);
                    }
                }
                Some(map)
            },
        }
    }

    /// A map with the shape of `self` whose cells all hold `fill`.
    pub fn same_shape<U: Copy>(&self, fill: U) -> (map: CellMap<U>)
        ensures
            map.spec_rows() == self.spec_rows(),
            map.spec_cols() == self.spec_cols(),
            map.area() == self.area(),
            forall|c: Cell| map.has(c) ==> #[trigger] map.at(c) == fill,
            forall|p: spec_fn(U) -> bool| p(fill) ==> #[trigger] map.count(p) == map.area(),
    {
        proof {
            use_type_invariant(self);
        }
        let n = self.data.len();
        let mut data: Vec<U> = Vec::with_capacity(n);
        let mut i: usize = 0;
        while i < n
            invariant
                i <= n,
                data.len() == i,
                forall|j: int| 0 <= j < i ==> data@[j] == fill,
                forall|p: spec_fn(U) -> bool| p(fill) ==> #[trigger] seq_count(data@, p) == i,
            decreases n - i,
        {
            let ghost before = data@;
            data.push(fill);
            proof {
                assert(data@.drop_last() =~= before);
                assert forall|p: spec_fn(U) -> bool| p(fill) implies #[trigger] seq_count(data@, p)
                    == i + 1 by {
                    assert(seq_count(before, p) == i);
                }
            }
            i += 1;
        }
        let map = CellMap { rows: self.rows, cols: self.cols, data };
        proof {
            assert forall|c: Cell| map.has(c) implies #[trigger] map.at(c) == fill by {
                lemma_flat_index(self.rows as int, self.cols as int, c.0 as int, c.1 as int);
            }
        }
        map
    }

    /// The number of rows.
    pub fn rows(&self) -> (r: usize)
        ensures
            r == self.spec_rows(),
    {
        self.rows
    }

    /// The number of columns.
    pub fn cols(&self) -> (r: usize)
        ensures
            r == self.spec_cols(),
    {
        self.cols
    }

    /// The number of cells.
    pub fn size(&self) -> (n: usize)
        ensures
            n == self.area(),
            n == self.spec_rows() * self.spec_cols(),
            n <= MAX_CELLS,
    {
        proof {
            use_type_invariant(self);
        }
        self.data.len()
    }

    /// Whether `cell` is a cell of this map.
    pub fn contains(&self, cell: Cell) -> (r: bool)
        ensures
            r == self.has(cell),
    {
        cell.0 < self.rows && cell.1 < self.cols
    }

    /// The value stored for `cell`.
    pub fn get(&self, cell: Cell) -> (v: T)
        requires
            self.has(cell),
        ensures
            v == self.at(cell),
    {
        proof {
            use_type_invariant(self);
            lemma_flat_index(self.rows as int, self.cols as int, cell.0 as int, cell.1 as int);
        }
        self.data[cell.1 * self.rows + cell.0]
    }

    /// Stores `v` for `cell` and leaves every other cell as it was.
    pub fn set(&mut self, cell: Cell, v: T)
        requires
            old(self).has(cell),
        ensures
            final(self).inv(),
            final(self).spec_rows() == old(self).spec_rows(),
            final(self).spec_cols() == old(self).spec_cols(),
            final(self).area() == old(self).area(),
            final(self).at(cell) == v,
            forall|c: Cell|
                old(self).has(c) && c != cell ==> #[trigger] final(self).at(c) == old(self).at(c),
            forall|p: spec_fn(T) -> bool| #[trigger]
                final(self).count(p) + (if p(old(self).at(cell)) {
                    1nat
                } else {
                    0nat
                }) == old(self).count(p) + (if p(v) {
                    1nat
                } else {
                    0nat
                }),
        no_unwind
    {
        proof {
            use_type_invariant(&*self);
            lemma_flat_index(self.rows as int, self.cols as int, cell.0 as int, cell.1 as int);
        }
        let i = cell.1 * self.rows + cell.0;
        let ghost before = self.data@;
        let ghost rows = self.rows;
        self.data[i] = v;
        proof {
            assert forall|c: Cell| old(self).has(c) && c != cell implies #[trigger] self.at(c)
                == old(self).at(c) by {
                lemma_flat_index(rows as int, self.cols as int, c.0 as int, c.1 as int);
                if flat(rows, c) == i {
                    lemma_flat_index_injective(
                        rows as int,
                        (c.0 as int, c.1 as int),
                        (cell.0 as int, cell.1 as int),
                    );
                }
            }
            assert forall|p: spec_fn(T) -> bool| #[trigger]
                self.count(p) + (if p(old(self).at(cell)) {
                    1nat
                } else {
                    0nat
                }) == old(self).count(p) + (if p(v) {
                    1nat
                } else {
                    0nat
                }) by {
                lemma_seq_count_update(before, i as int, v, p);
            }
        }
    }

    /// The values in storage order: the cell `(row, col)` at `col * rows + row`.
    pub fn into_vec(self) -> (v: Vec<T>)
        ensures
            v@ == self.flat_values(),
            v@.len() == self.spec_rows() * self.spec_cols(),
            forall|c: Cell| self.has(c) ==> 0 <= flat(self.spec_rows(), c) < v@.len() && v@[flat(self.spec_rows(), c)] == #[trigger] self.at(c),
    {
        proof {
            use_type_invariant(&self);
            assert forall|c: Cell| self.has(c) implies 0 <= flat(self.spec_rows(), c) < self.data@.len() by {
                lemma_flat_index(self.rows as int, self.cols as int, c.0 as int, c.1 as int);
            }
        }
        self.data
    }

    /// A map is within the limits; with a cell in it, its rows and columns
    /// together are at most one more than its cells.
    pub proof fn lemma_area(&self)
        requires
            self.inv(),
        ensures
            self.area() == self.spec_rows() * self.spec_cols(),
            self.area() <= MAX_CELLS,
            self.area() < usize::MAX,
            self.spec_rows() <= MAX_SIDE,
            self.spec_cols() <= MAX_SIDE,
            self.spec_rows() >= 1 && self.spec_cols() >= 1 ==> self.spec_rows() + self.spec_cols()
                <= self.area() + 1,
    {
        let r = self.rows as int;
        let c = self.cols as int;
        if r >= 1 && c >= 1 {
            assert(r + c <= r * c + 1) by (nonlinear_arith)
                requires
                    r >= 1,
                    c >= 1,
            ;
        }
    }

    /// A cell whose value satisfies `p` makes the count positive.
    pub proof fn lemma_count_positive(&self, c: Cell, p: spec_fn(T) -> bool)
        requires
            self.inv(),
            self.has(c),
            p(self.at(c)),
        ensures
            self.count(p) > 0,
    {
        lemma_flat_index(self.rows as int, self.cols as int, c.0 as int, c.1 as int);
        lemma_seq_count_zero(self.data@, p);
        assert(p(self.data@[flat(self.rows, c)]));
    }

    /// No more cells satisfy a predicate than the map has cells.
    pub proof fn lemma_count_bound(&self, p: spec_fn(T) -> bool)
        ensures
            self.count(p) <= self.area(),
    {
        lemma_seq_count_bound(self.data@, p);
    }
}

/// The cell `(r, c)` if it lies on the grid, as a sequence of at most one cell.
pub open spec fn cell_if(rows: usize, cols: usize, r: int, c: int) -> Seq<Cell> {
    if 0 <= r < rows && 0 <= c < cols {
        seq![(r as usize, c as usize)]
    } else {
        Seq::empty()
    }
}

/// The cells of the grid one orthogonal step from `p`: the column before, the
/// column after, the row before, the row after.
pub open spec fn orthogonal(rows: usize, cols: usize, p: Cell) -> Seq<Cell> {
    cell_if(rows, cols, p.0 as int, p.1 - 1) + cell_if(rows, cols, p.0 as int, p.1 + 1) + cell_if(
        rows,
        cols,
        p.0 - 1,
        p.1 as int,
    ) + cell_if(rows, cols, p.0 + 1, p.1 as int)
}

/// The cells of the grid one diagonal step from `p`.
pub open spec fn diagonal(rows: usize, cols: usize, p: Cell) -> Seq<Cell> {
    cell_if(rows, cols, p.0 - 1, p.1 - 1) + cell_if(rows, cols, p.0 + 1, p.1 - 1) + cell_if(
        rows,
        cols,
        p.0 - 1,
        p.1 + 1,
    ) + cell_if(rows, cols, p.0 + 1, p.1 + 1)
}

/// The neighbours of `p` on the grid, in the order in which the planners
/// visit them: with `eight` the diagonal ones, then the orthogonal ones.
pub open spec fn around(rows: usize, cols: usize, p: Cell, eight: bool) -> Seq<Cell> {
    if eight {
        diagonal(rows, cols, p) + orthogonal(rows, cols, p)
    } else {
        orthogonal(rows, cols, p)
    }
}

/// The orthogonal neighbours are the cells of the grid that touch `p`
/// four-connectedly.
pub proof fn lemma_orthogonal_touches(rows: usize, cols: usize, p: Cell, q: Cell)
    ensures
        orthogonal(rows, cols, p).contains(q) <==> in_bounds(rows, cols, q) && touches(false, p, q),
{
    let a = cell_if(rows, cols, p.0 as int, p.1 - 1);
    let b = cell_if(rows, cols, p.0 as int, p.1 + 1);
    let c = cell_if(rows, cols, p.0 - 1, p.1 as int);
    let d = cell_if(rows, cols, p.0 + 1, p.1 as int);
    let s = orthogonal(rows, cols, p);
    if in_bounds(rows, cols, q) && touches(false, p, q) {
        if q.0 == p.0 && q.1 + 1 == p.1 {
            assert(s[0] == q);
        } else if q.0 == p.0 && q.1 == p.1 + 1 {
            assert(s[a.len() as int] == q);
        } else if q.0 + 1 == p.0 && q.1 == p.1 {
            assert(s[(a.len() + b.len()) as int] == q);
        } else {
            assert(q.0 == p.0 + 1 && q.1 == p.1);
            assert(s[(a.len() + b.len() + c.len()) as int] == q);
        }
    }
    if s.contains(q) {
        let i = choose|i: int| 0 <= i < s.len() && s[i] == q;
        assert(s[i] == q);
    }
}

/// The diagonal neighbours are the cells of the grid one step away in both
/// coordinates.
pub proof fn lemma_diagonal_touches(rows: usize, cols: usize, p: Cell, q: Cell)
    ensures
        diagonal(rows, cols, p).contains(q) <==> in_bounds(rows, cols, q) && gap(p.0, q.0) == 1
            && gap(p.1, q.1) == 1,
{
    let a = cell_if(rows, cols, p.0 - 1, p.1 - 1);
    let b = cell_if(rows, cols, p.0 + 1, p.1 - 1);
    let c = cell_if(rows, cols, p.0 - 1, p.1 + 1);
    let d = cell_if(rows, cols, p.0 + 1, p.1 + 1);
    let s = diagonal(rows, cols, p);
    if in_bounds(rows, cols, q) && gap(p.0, q.0) == 1 && gap(p.1, q.1) == 1 {
        if q.0 + 1 == p.0 && q.1 + 1 == p.1 {
            assert(s[0] == q);
        } else if q.0 == p.0 + 1 && q.1 + 1 == p.1 {
            assert(s[a.len() as int] == q);
        } else if q.0 + 1 == p.0 && q.1 == p.1 + 1 {
            assert(s[(a.len() + b.len()) as int] == q);
        } else {
            assert(q.0 == p.0 + 1 && q.1 == p.1 + 1);
            assert(s[(a.len() + b.len() + c.len()) as int] == q);
        }
    }
    if s.contains(q) {
        let i = choose|i: int| 0 <= i < s.len() && s[i] == q;
        assert(s[i] == q);
    }
}

/// The neighbours of `p` are exactly the cells of the grid that touch `p`.
pub proof fn lemma_around_touches(rows: usize, cols: usize, p: Cell, eight: bool, q: Cell)
    ensures
        around(rows, cols, p, eight).contains(q) <==> in_bounds(rows, cols, q) && touches(eight, p, q),
{
    lemma_orthogonal_touches(rows, cols, p, q);
    lemma_diagonal_touches(rows, cols, p, q);
    if eight {
        let d = diagonal(rows, cols, p);
        let o = orthogonal(rows, cols, p);
        let s = d + o;
        if d.contains(q) {
            let i = choose|i: int| 0 <= i < d.len() && d[i] == q;
            assert(s[i] == q);
        }
        if o.contains(q) {
            let i = choose|i: int| 0 <= i < o.len() && o[i] == q;
            assert(s[d.len() + i] == q);
        }
        if s.contains(q) {
            let i = choose|i: int| 0 <= i < s.len() && s[i] == q;
            if i < d.len() {
                assert(d[i] == q);
            } else {
                assert(o[i - d.len()] == q);
            }
        }
    }
}

/// Which cells of a grid are blocked.
pub struct OccupancyGrid {
    cells: CellMap<bool>,
}

impl OccupancyGrid {
    /// The grid's storage is well formed.
    #[verifier::type_invariant]
    pub closed spec fn wf(&self) -> bool {
        self.cells.inv()
    }

    /// The number of rows.
    pub closed spec fn spec_rows(&self) -> usize {
        self.cells.spec_rows()
    }

    /// The number of columns.
    pub closed spec fn spec_cols(&self) -> usize {
        self.cells.spec_cols()
    }

    /// The number of cells, `rows * cols`.
    pub closed spec fn area(&self) -> nat {
        self.cells.area()
    }

    /// Whether `c` is a cell of this grid.
    pub open spec fn has(&self, c: Cell) -> bool {
        in_bounds(self.spec_rows(), self.spec_cols(), c)
    }

    /// The obstacle flag of the cell `c`.
    pub closed spec fn blocked(&self, c: Cell) -> bool {
        self.cells.at(c)
    }

    /// Whether `c` is a cell of this grid that no obstacle covers.
    pub open spec fn free(&self, c: Cell) -> bool {
        self.has(c) && !self.blocked(c)
    }

    /// The neighbours of `c` on this grid, in visiting order.
    pub open spec fn around(&self, c: Cell, eight: bool) -> Seq<Cell> {
        around(self.spec_rows(), self.spec_cols(), c, eight)
    }

    /// A grid of `rows` by `cols` free cells, or `None` when the shape is
    /// beyond the limits.
    pub fn new(rows: usize, cols: usize) -> (g: Option<OccupancyGrid>)
        ensures
            g is Some <==> fits(rows, cols),
            g matches Some(grid) ==> {
                &&& grid.spec_rows() == rows
                &&& grid.spec_cols() == cols
                &&& grid.area() == rows * cols
                &&& forall|c: Cell| grid.has(c) ==> !#[trigger] grid.blocked(c)
            },
    {
        match CellMap::new(rows, cols, false) {
            None => None,
            Some(cells) => Some(OccupancyGrid { cells }),
        }
    }

    /// The grid that a flat area describes, in which a cell is blocked where
    /// the area holds `u64::MAX`; `None` when the area does not have
    /// `rows * cols` entries, or the shape is beyond the limits.
    pub fn from_area(area: &Vec<u64>, rows: usize, cols: usize) -> (g: Option<OccupancyGrid>)
        ensures
            g is Some <==> rows * cols == area.len() && fits(rows, cols),
            g matches Some(grid) ==> {
                &&& grid.spec_rows() == rows
                &&& grid.spec_cols() == cols
                &&& grid.area() == rows * cols
                &&& forall|c: Cell|
                    grid.has(c) ==> #[trigger] grid.blocked(c) == (area@[flat(rows, c)] == u64::MAX)
            },
    {
        match CellMap::new(rows, cols, false) {
            None => None,
            Some(mut cells) => {
                if cells.size() != area.len() {
                    return None;
                }
                let mut col: usize = 0;
                while col < cols
                    invariant
                        col <= cols,
                        cells.spec_rows() == rows,
                        cells.spec_cols() == cols,
                        cells.area() == rows * cols,
                        rows * cols == area.len(),
                        forall|c: Cell|
                            in_bounds(rows, cols, c) && c.1 < col ==> #[trigger] cells.at(c) == (area@[flat(
                                rows,
                                c,
                            )] == u64::MAX),
                    decreases cols - col,
                {
                    let mut row: usize = 0;
                    while row < rows
                        invariant
                            row <= rows,
                            col < cols,
                            cells.spec_rows() == rows,
                            cells.spec_cols() == cols,
                            cells.area() == rows * cols,
                            rows * cols == area.len(),
                            forall|c: Cell|
                                in_bounds(rows, cols, c) && (c.1 < col || (c.1 == col && c.0 < row))
                                    ==> #[trigger] cells.at(c) == (area@[flat(rows, c)] == u64::MAX),
                        decreases rows - row,
                    {
                        proof {
                            lemma_flat_index(rows as int, cols as int, row as int, col as int);
                        }
                        let v = area[col * rows + row];
                        cells.set((row, col), v == u64::MAX);
                        row += 1;
                    }
                    col += 1;
                }
                let grid = OccupancyGrid { cells };
                proof {
                    assert forall|c: Cell| grid.has(c) implies #[trigger] grid.blocked(c) == (area@[flat(
                        rows,
                        c,
                    )] == u64::MAX) by {
                        lemma_flat_index(rows as int, cols as int, c.0 as int, c.1 as int);
                    }

                }
                Some(grid)
            },
        }
    }

    /// The number of rows.
    pub fn rows(&self) -> (r: usize)
        ensures
            r == self.spec_rows(),
    {
        self.cells.rows()
    }

    /// The number of columns.
    pub fn cols(&self) -> (r: usize)
        ensures
            r == self.spec_cols(),
    {
        self.cells.cols()
    }

    /// The number of cells.
    pub fn size(&self) -> (n: usize)
        ensures
            n == self.area(),
            n == self.spec_rows() * self.spec_cols(),
    {
        self.cells.size()
    }

    /// Whether `cell` is a cell of this grid.
    pub fn contains(&self, cell: Cell) -> (r: bool)
        ensures
            r == self.has(cell),
    {
        self.cells.contains(cell)
    }

    /// A grid is within the limits; with a cell in it, its rows and columns
    /// together are at most one more than its cells.
    pub proof fn lemma_area(&self)
        requires
            self.wf(),
        ensures
            self.area() == self.spec_rows() * self.spec_cols(),
            self.area() <= MAX_CELLS,
            self.area() < usize::MAX,
            self.spec_rows() <= MAX_SIDE,
            self.spec_cols() <= MAX_SIDE,
            self.spec_rows() >= 1 && self.spec_cols() >= 1 ==> self.spec_rows() + self.spec_cols()
                <= self.area() + 1,
    {
        self.cells.lemma_area();
    }

    /// Whether an obstacle covers `cell`. A position outside the grid counts
    /// as blocked.
    pub fn is_blocked(&self, cell: Cell) -> (r: bool)
        ensures
            r == !self.free(cell),
    {
        if self.cells.contains(cell) {
            self.cells.get(cell)
        } else {
            true
        }
    }

    /// Sets the obstacle flag of `cell`; a position outside the grid is left
    /// alone. Returns whether `cell` is on the grid.
    pub fn set_blocked(&mut self, cell: Cell, blocked: bool) -> (done: bool)
        ensures
            done == old(self).has(cell),
            final(self).spec_rows() == old(self).spec_rows(),
            final(self).spec_cols() == old(self).spec_cols(),
            final(self).area() == old(self).area(),
            done ==> final(self).blocked(cell) == blocked,
            forall|c: Cell|
                old(self).has(c) && !(done && c == cell) ==> #[trigger] final(self).blocked(c) == old(self).blocked(c),
    {
        if self.cells.contains(cell) {
            self.cells.set(cell, blocked);
            true
        } else {
            false
        }
    }

    /// A map with one `fill` per cell of this grid.
    pub fn layer<U: Copy>(&self, fill: U) -> (map: CellMap<U>)
        ensures
            map.spec_rows() == self.spec_rows(),
            map.spec_cols() == self.spec_cols(),
            map.area() == self.area(),
            forall|c: Cell| map.has(c) ==> #[trigger] map.at(c) == fill,
            forall|p: spec_fn(U) -> bool| p(fill) ==> #[trigger] map.count(p) == map.area(),
    {
        self.cells.same_shape(fill)
    }

    /// The in-bounds cells one orthogonal step from `cell`.
    pub fn neighbors4(&self, cell: Cell) -> (v: Vec<Cell>)
        ensures
            v@ == self.around(cell, false),
    {
        orthogonal_cells(self.cells.rows(), self.cells.cols(), cell)
    }

    /// The in-bounds cells one diagonal step from `cell`.
    pub fn diagonals(&self, cell: Cell) -> (v: Vec<Cell>)
        ensures
            v@ == diagonal(self.spec_rows(), self.spec_cols(), cell),
    {
        diagonal_cells(self.cells.rows(), self.cells.cols(), cell)
    }

    /// The in-bounds cells that touch `cell`, diagonal ones first.
    pub fn neighbors8(&self, cell: Cell) -> (v: Vec<Cell>)
        ensures
            v@ == self.around(cell, true),
    {
        let mut v = self.diagonals(cell);
        let mut o = self.neighbors4(cell);
        v.append(&mut o);
        v
    }

    /// The neighbours of `cell` under the given connectivity.
    pub fn neighbors(&self, cell: Cell, eight: bool) -> (v: Vec<Cell>)
        ensures
            v@ == self.around(cell, eight),
    {
        if eight {
            self.neighbors8(cell)
        } else {
            self.neighbors4(cell)
        }
    }
}

/// The cells of a `rows` by `cols` grid one orthogonal step from `cell`.
pub fn orthogonal_cells(rows: usize, cols: usize, cell: Cell) -> (v: Vec<Cell>)
    ensures
        v@ == orthogonal(rows, cols, cell),
{
    let (r, c) = cell;
    let mut v: Vec<Cell> = Vec::new();
    if r < rows && c > 0 && c - 1 < cols {
        v.push((r, c - 1));
    }
    assert(v@ =~= cell_if(rows, cols, r as int, c - 1));
    if r < rows && c < usize::MAX && c + 1 < cols {
        v.push((r, c + 1));
    }
    assert(v@ =~= cell_if(rows, cols, r as int, c - 1) + cell_if(rows, cols, r as int, c + 1));
    if c < cols && r > 0 && r - 1 < rows {
        v.push((r - 1, c));
    }
    assert(v@ =~= cell_if(rows, cols, r as int, c - 1) + cell_if(rows, cols, r as int, c + 1)
        + cell_if(rows, cols, r - 1, c as int));
    if c < cols && r < usize::MAX && r + 1 < rows {
        v.push((r + 1, c));
    }
    assert(v@ =~= orthogonal(rows, cols, cell));
    v
}

/// The cells of a `rows` by `cols` grid one diagonal step from `cell`.
pub fn diagonal_cells(rows: usize, cols: usize, cell: Cell) -> (v: Vec<Cell>)
    ensures
        v@ == diagonal(rows, cols, cell),
{
    let (r, c) = cell;
    let up = r > 0 && r - 1 < rows;
    let down = r < usize::MAX && r + 1 < rows;
    let left = c > 0 && c - 1 < cols;
    let right = c < usize::MAX && c + 1 < cols;
    let mut v: Vec<Cell> = Vec::new();
    if up && left {
        v.push((r - 1, c - 1));
    }
    assert(v@ =~= cell_if(rows, cols, r - 1, c - 1));
    if down && left {
        v.push((r + 1, c - 1));
    }
    assert(v@ =~= cell_if(rows, cols, r - 1, c - 1) + cell_if(rows, cols, r + 1, c - 1));
    if up && right {
        v.push((r - 1, c + 1));
    }
    assert(v@ =~= cell_if(rows, cols, r - 1, c - 1) + cell_if(rows, cols, r + 1, c - 1) + cell_if(
        rows,
        cols,
        r - 1,
        c + 1,
    ));
    if down && right {
        v.push((r + 1, c + 1));
    }
    assert(v@ =~= diagonal(rows, cols, cell));
    v
}

/// The neighbours of a cell are pairwise different.
pub proof fn lemma_around_distinct(rows: usize, cols: usize, p: Cell, eight: bool)
    ensures
        forall|i: int, j: int|
            0 <= i < j < around(rows, cols, p, eight).len() ==> around(rows, cols, p, eight)[i] != around(
                rows,
                cols,
                p,
                eight,
            )[j],
        !around(rows, cols, p, eight).contains(p),
{
    let o = orthogonal(rows, cols, p);
    let d = diagonal(rows, cols, p);
    assert forall|i: int, j: int| 0 <= i < j < o.len() implies o[i] != o[j] by {
        lemma_pieces_distinct(
            cell_if(rows, cols, p.0 as int, p.1 - 1),
            cell_if(rows, cols, p.0 as int, p.1 + 1),
            cell_if(rows, cols, p.0 - 1, p.1 as int),
            cell_if(rows, cols, p.0 + 1, p.1 as int),
            i,
            j,
        );
    }
    assert forall|i: int, j: int| 0 <= i < j < d.len() implies d[i] != d[j] by {
        lemma_pieces_distinct(
            cell_if(rows, cols, p.0 - 1, p.1 - 1),
            cell_if(rows, cols, p.0 + 1, p.1 - 1),
            cell_if(rows, cols, p.0 - 1, p.1 + 1),
            cell_if(rows, cols, p.0 + 1, p.1 + 1),
            i,
            j,
        );
    }
    let s = around(rows, cols, p, eight);
    assert forall|i: int, j: int| 0 <= i < j < s.len() implies s[i] != s[j] by {
        if eight {
            if j < d.len() {
                assert(s[i] == d[i] && s[j] == d[j]);
            } else if i >= d.len() {
                assert(s[i] == o[i - d.len()] && s[j] == o[j - d.len()]);
            } else {
                assert(s[i] == d[i] && s[j] == o[j - d.len()]);
                assert(d.contains(d[i]));
                assert(o.contains(o[j - d.len()]));
                lemma_diagonal_touches(rows, cols, p, s[i]);
                lemma_orthogonal_touches(rows, cols, p, s[j]);
            }
        }
    }
    lemma_around_touches(rows, cols, p, eight, p);
}

/// Four pieces of at most one cell each, that hold different cells, make a
/// sequence without a repeated cell.
proof fn lemma_pieces_distinct(a: Seq<Cell>, b: Seq<Cell>, c: Seq<Cell>, d: Seq<Cell>, i: int, j: int)
    requires
        a.len() <= 1,
        b.len() <= 1,
        c.len() <= 1,
        d.len() <= 1,
        a.len() == 1 && b.len() == 1 ==> a[0] != b[0],
        a.len() == 1 && c.len() == 1 ==> a[0] != c[0],
        a.len() == 1 && d.len() == 1 ==> a[0] != d[0],
        b.len() == 1 && c.len() == 1 ==> b[0] != c[0],
        b.len() == 1 && d.len() == 1 ==> b[0] != d[0],
        c.len() == 1 && d.len() == 1 ==> c[0] != d[0],
        0 <= i < j < (a + b + c + d).len(),
    ensures
        (a + b + c + d)[i] != (a + b + c + d)[j],
{
}

/// The Manhattan distance between two cells.
pub fn distance(a: Cell, b: Cell) -> (d: usize)
    requires
        manhattan(a, b) <= usize::MAX,
    ensures
        d == manhattan(a, b),
{
    let dr = if a.0 <= b.0 {
        b.0 - a.0
    } else {
        a.0 - b.0
    };
    let dc = if a.1 <= b.1 {
        b.1 - a.1
    } else {
        a.1 - b.1
    };
    dr + dc
}

} // verus!
