//! Wavefront flood fill: the goal is labelled 1 and the labels spread
//! outwards, each round giving the unlabelled neighbours of the cells
//! labelled last the next number. The path then walks down the labels from
//! the start.

use crate::grid::{
    diagonal, diagonal_cells, in_bounds, lemma_around_touches, lemma_diagonal_touches,
    lemma_orthogonal_touches, manhattan, orthogonal, orthogonal_cells, touches, Cell, CellMap,
    OccupancyGrid,
};
use crate::plan::{
    backwards, lemma_closed_holds, lemma_path_backwards, lemma_path_prepend, lemma_reach_back,
    lemma_reach_self, lemma_reach_step, path_free, path_joins, path_linked, reachable, Outcome,
};
use vstd::prelude::*;

verus! {

/// The label of a blocked cell.
pub const WALL: u64 = u64::MAX;

/// The predicate "carries no label yet".
spec fn unlabeled() -> spec_fn(u64) -> bool {
    |v: u64| v == 0
}

/// The labels before any relaxation: `WALL` on obstacles, 0 elsewhere.
pub open spec fn blank(grid: &OccupancyGrid) -> Map<Cell, u64> {
    Map::new(
        |c: Cell| grid.has(c),
        |c: Cell|
            if grid.blocked(c) {
                WALL
            } else {
                0u64
            },
    )
}

/// Whether some neighbour of `c` carries the label `k`.
pub open spec fn near(grid: &OccupancyGrid, lab: Map<Cell, u64>, eight: bool, c: Cell, k: u64) -> bool {
    exists|q: Cell| grid.has(q) && #[trigger] touches(eight, c, q) && lab[q] == k
}

/// One round of relaxation: every unlabelled cell with a neighbour labelled
/// `k` receives `k + 1`; nothing else changes.
pub open spec fn relax(grid: &OccupancyGrid, lab: Map<Cell, u64>, eight: bool, k: u64) -> Map<
    Cell,
    u64,
> {
    Map::new(
        |c: Cell| grid.has(c),
        |c: Cell|
            if lab[c] == 0 && near(grid, lab, eight, c, k) {
                (k + 1) as u64
            } else {
                lab[c]
            },
    )
}

/// The labels after `n` rounds: the goal carries 1, and round `k` labels with
/// `k + 1`.
pub open spec fn wave(grid: &OccupancyGrid, goal: Cell, eight: bool, n: nat) -> Map<Cell, u64>
    decreases n,
{
    if n == 0 {
        blank(grid).insert(goal, 1)
    } else {
        relax(grid, wave(grid, goal, eight, (n - 1) as nat), eight, n as u64)
    }
}

/// Whether the relaxation stops after `n` rounds: the start is labelled, or
/// one more round would change nothing.
pub open spec fn settled(grid: &OccupancyGrid, start: Cell, goal: Cell, eight: bool, n: nat) -> bool {
    wave(grid, goal, eight, n)[start] != 0 || wave(grid, goal, eight, n + 1) == wave(
        grid,
        goal,
        eight,
        n,
    )
}

/// Whether `n` is the number of rounds that the relaxation runs: the first
/// after which it has settled.
pub open spec fn fill_rounds(grid: &OccupancyGrid, start: Cell, goal: Cell, eight: bool, n: nat) -> bool {
    settled(grid, start, goal, eight, n) && forall|m: nat|
        m < n ==> !#[trigger] settled(grid, start, goal, eight, m)
}

/// The neighbours of `c` in the order in which a descent tries them: with
/// `eight` the diagonal ones first, else the orthogonal ones first.
pub open spec fn descent_order(rows: usize, cols: usize, c: Cell, eight: bool) -> Seq<Cell> {
    if eight {
        diagonal(rows, cols, c) + orthogonal(rows, cols, c)
    } else {
        orthogonal(rows, cols, c) + diagonal(rows, cols, c)
    }
}

/// The first of `cand` that carries a label above 0 and below `v`.
pub open spec fn first_lower(lab: Map<Cell, u64>, cand: Seq<Cell>, v: u64) -> Option<Cell>
    decreases cand.len(),
{
    if cand.len() == 0 {
        None
    } else if 0 < lab[cand[0]] < v {
        Some(cand[0])
    } else {
        first_lower(lab, cand.drop_first(), v)
    }
}

/// The path that walks down the labels from `c`: it ends at a cell labelled
/// 0, 1 or `WALL`, or at one without a neighbour that carries a lower label.
pub open spec fn descent(rows: usize, cols: usize, lab: Map<Cell, u64>, c: Cell, eight: bool) -> Seq<
    Cell,
>
    decreases lab[c],
{
    let v = lab[c];
    if v == 0 || v == 1 || v == WALL {
        seq![c]
    } else {
        match first_lower(lab, descent_order(rows, cols, c, eight), v) {
            Some(q) => if lab[q] < v {
                seq![c] + descent(rows, cols, lab, q, eight)
            } else {
                seq![c]
            },
            None => seq![c],
        }
    }
}

/// What `first_lower` finds is one of the candidates and carries a label
/// above 0 and below `v`.
proof fn lemma_first_lower(lab: Map<Cell, u64>, cand: Seq<Cell>, v: u64)
    ensures
        first_lower(lab, cand, v) matches Some(q) ==> cand.contains(q) && 0 < lab[q] < v,
        first_lower(lab, cand, v) is None ==> forall|i: int|
            0 <= i < cand.len() ==> !(0 < lab[#[trigger] cand[i]] < v),
    decreases cand.len(),
{
    if cand.len() > 0 {
        if 0 < lab[cand[0]] < v {
            assert(cand[0] == cand[0]);
        } else {
            let rest = cand.drop_first();
            lemma_first_lower(lab, rest, v);
            match first_lower(lab, rest, v) {
                Some(q) => {
                    let i = choose|i: int| 0 <= i < rest.len() && rest[i] == q;
                    assert(cand[i + 1] == q);
                },
                None => {
                    assert forall|i: int| 0 <= i < cand.len() implies !(0 < lab[#[trigger] cand[i]]
                        < v) by {
                        if i > 0 {
                            assert(rest[i - 1] == cand[i]);
                        }
                    }
                },
            }
        }
    }
}

/// The candidates of a descent lie on the grid and touch the cell.
proof fn lemma_descent_order(rows: usize, cols: usize, c: Cell, eight: bool, q: Cell)
    ensures
        descent_order(rows, cols, c, eight).contains(q) <==> in_bounds(rows, cols, q) && touches(
            true,
            c,
            q,
        ),
{
    lemma_orthogonal_touches(rows, cols, c, q);
    lemma_diagonal_touches(rows, cols, c, q);
    let d = diagonal(rows, cols, c);
    let o = orthogonal(rows, cols, c);
    let s = descent_order(rows, cols, c, eight);
    let (a, b) = if eight {
        (d, o)
    } else {
        (o, d)
    };
    assert(s == a + b);
    if a.contains(q) {
        let i = choose|i: int| 0 <= i < a.len() && a[i] == q;
        assert(s[i] == q);
    }
    if b.contains(q) {
        let i = choose|i: int| 0 <= i < b.len() && b[i] == q;
        assert(s[a.len() + i] == q);
    }
    if s.contains(q) {
        let i = choose|i: int| 0 <= i < s.len() && s[i] == q;
        if i < a.len() {
            assert(a[i] == q);
        } else {
            assert(b[i - a.len()] == q);
        }
    }
}

/// Walks down the labels from `start` and returns the cells passed, `start`
/// first.
///
/// At each cell the neighbours are tried in a fixed order, with `eight` the
/// diagonal ones first, and the walk moves to the first that carries a label
/// above 0 and below the current one. It ends at a cell labelled 0, 1 or
/// `WALL`, or where no neighbour carries a lower label.
pub fn find_path(start: Cell, labels: &CellMap<u64>, eight: bool) -> (path: Vec<Cell>)
    requires
        labels.has(start),
    ensures
        path@ == descent(labels.spec_rows(), labels.spec_cols(), labels@, start, eight),
{
    let rows = labels.rows();
    let cols = labels.cols();
    let mut path: Vec<Cell> = Vec::new();
    let mut cur = start;
    let ghost whole = descent(rows, cols, labels@, start, eight);
    proof {
        assert(path@ + descent(rows, cols, labels@, cur, eight) =~= whole);
    }
    loop
        invariant_except_break
            whole == path@ + descent(rows, cols, labels@, cur, eight),
        invariant
            rows == labels.spec_rows(),
            cols == labels.spec_cols(),
            labels.has(cur),
            whole == descent(rows, cols, labels@, start, eight),
        ensures
            path@ == whole,
        decreases labels.at(cur),
    {
        let ghost before = path@;
        path.push(cur);
        let v = labels.get(cur);
        assert(labels@[cur] == v);
        if v == 0 || v == 1 || v == WALL {
            proof {
                assert(before + seq![cur] =~= path@);
            }
            break ;
        }
        let mut cand = if eight {
            diagonal_cells(rows, cols, cur)
        } else {
            orthogonal_cells(rows, cols, cur)
        };
        let mut more = if eight {
            orthogonal_cells(rows, cols, cur)
        } else {
            diagonal_cells(rows, cols, cur)
        };
        cand.append(&mut more);
        let mut i: usize = 0;
        let mut next: Option<Cell> = None;
        proof {
            assert(cand@ == descent_order(rows, cols, cur, eight));
            assert(cand@.subrange(0, cand.len() as int) =~= cand@);
            assert forall|j: int| 0 <= j < cand.len() implies labels.has(#[trigger] cand[j]) by {
                assert(cand@.contains(cand[j]));
                lemma_descent_order(rows, cols, cur, eight, cand[j]);
            }
        }
        while i < cand.len()
            invariant_except_break
                next is None,
            invariant
                i <= cand.len(),
                forall|j: int| 0 <= j < cand.len() ==> labels.has(#[trigger] cand[j]),
                first_lower(labels@, cand@, v) == first_lower(
                    labels@,
                    cand@.subrange(i as int, cand.len() as int),
                    v,
                ),
            ensures
                next == first_lower(labels@, cand@, v),
            decreases cand.len() - i,
        {
            let q = cand[i];
            proof {
                let rest = cand@.subrange(i as int, cand.len() as int);
                assert(rest[0] == q);
                assert(rest.drop_first() =~= cand@.subrange(i + 1, cand.len() as int));
            }
            let w = labels.get(q);
            assert(labels@[q] == w);
            if 0 < w && w < v {
                next = Some(q);
                break ;
            }
            i += 1;
        }
        proof {
            assert(cand@ == descent_order(rows, cols, cur, eight));
            lemma_first_lower(labels@, cand@, v);
        }
        match next {
            Some(q) => {
                proof {
                    lemma_descent_order(rows, cols, cur, eight, q);
                    assert(before + (seq![cur] + descent(rows, cols, labels@, q, eight)) =~= path@
                        + descent(rows, cols, labels@, q, eight));
                }
                cur = q;
            },
            None => {
                proof {
                    assert(before + seq![cur] =~= path@);
                }
                break ;
            },
        }
    }
    path
}

/// What a flood fill returns.
pub struct FloodResult {
    /// How the run ended.
    pub outcome: Outcome,
    /// The cells from start to goal; empty unless the outcome is `Found`.
    pub path: Vec<Cell>,
    /// The label of every cell when the relaxation stopped.
    pub labels: CellMap<u64>,
    /// The number of rounds that labelled a cell.
    pub rounds: usize,
}

/// What a flood fill from `goal` towards `start` has to return.
///
/// With `eight` the labels spread to diagonal neighbours too; with
/// `path_eight` the path prefers diagonal steps.
pub open spec fn flood_result(
    grid: &OccupancyGrid,
    start: Cell,
    goal: Cell,
    eight: bool,
    path_eight: bool,
    res: &FloodResult,
) -> bool {
    &&& res.labels.spec_rows() == grid.spec_rows()
    &&& res.labels.spec_cols() == grid.spec_cols()
    &&& if !grid.free(start) || !grid.free(goal) {
        &&& res.outcome == Outcome::InvalidInput
        &&& res.path@ == Seq::<Cell>::empty()
        &&& res.rounds == 0
        &&& res.labels@ == blank(grid)
    } else {
        &&& fill_rounds(grid, start, goal, eight, res.rounds as nat)
        &&& res.labels@ == wave(grid, goal, eight, res.rounds as nat)
        &&& if res.labels@[start] != 0 {
            &&& res.outcome == Outcome::Found
            &&& res.path@ == descent(
                grid.spec_rows(),
                grid.spec_cols(),
                res.labels@,
                start,
                path_eight,
            )
        } else {
            &&& res.outcome == Outcome::Unreachable
            &&& res.path@ == Seq::<Cell>::empty()
        }
    }
}

/// What a flood fill is worth: its path runs over free cells alone; where
/// one was found it leads from `start` to `goal`, each cell touching the
/// next; one is found exactly where the goal can be reached from the start
/// over free cells in steps of the fill's connectivity; and no path in such
/// steps is shorter than one more than the number of rounds, which is the
/// length of the path found unless that cuts corners of an orthogonal fill.
pub open spec fn flood_sound(
    grid: &OccupancyGrid,
    start: Cell,
    goal: Cell,
    eight: bool,
    path_eight: bool,
    res: &FloodResult,
) -> bool {
    &&& path_free(grid, res.path@)
    &&& res.outcome == Outcome::Found ==> path_joins(res.path@, start, goal) && path_linked(
        res.path@,
        eight || path_eight,
    )
    &&& grid.free(start) && grid.free(goal) ==> (res.outcome == Outcome::Found <==> reachable(
        grid,
        eight,
        start,
        goal,
    ))
    &&& res.outcome == Outcome::Found ==> res.path@.len() <= res.rounds + 1 && no_shorter(
        grid,
        eight,
        start,
        goal,
        res.rounds + 1,
    )
    &&& res.outcome == Outcome::Found && (eight || !path_eight) ==> res.path@.len() == res.rounds + 1
}

/// Whether every free cell that touches a cell labelled below `k` carries a
/// label, at most one above that of the cell.
#[verifier::opaque]
spec fn closed_below(grid: &OccupancyGrid, labels: &CellMap<u64>, eight: bool, k: u64) -> bool {
    forall|c: Cell, q: Cell|
        grid.has(c) && 1 <= labels.at(c) < k && grid.free(q) && #[trigger] touches(eight, c, q) ==> 1
            <= labels.at(q) <= labels.at(c) + 1
}

/// Whether no path from `from` to `to` over free cells, each touching the
/// next, has fewer than `n` cells.
pub open spec fn no_shorter(grid: &OccupancyGrid, eight: bool, from: Cell, to: Cell, n: int) -> bool {
    forall|p: Seq<Cell>|
        #[trigger] path_joins(p, from, to) && path_free(grid, p) && path_linked(p, eight) ==> p.len() >= n
}

/// The labels lead to the goal: the goal alone carries 1, and a cell with a
/// higher label has a neighbour that carries one less.
#[verifier::opaque]
spec fn graded(grid: &OccupancyGrid, labels: &CellMap<u64>, goal: Cell, eight: bool) -> bool {
    &&& forall|c: Cell| grid.has(c) ==> (#[trigger] labels.at(c) == 1 <==> c == goal)
    &&& forall|c: Cell|
        grid.has(c) && 2 <= #[trigger] labels.at(c) < WALL ==> near(
            grid,
            labels@,
            eight,
            c,
            (labels.at(c) - 1) as u64,
        )
}

/// What holds of the labels between two rounds, `k` being the label that the
/// last round gave.
spec fn labels_fit(grid: &OccupancyGrid, labels: &CellMap<u64>, k: u64) -> bool {
    &&& labels.spec_rows() == grid.spec_rows()
    &&& labels.spec_cols() == grid.spec_cols()
    &&& labels.area() == grid.area()
    &&& forall|c: Cell|
        grid.has(c) ==> (grid.blocked(c) <==> #[trigger] labels.at(c) == WALL) && (labels.at(c) <= k
            || labels.at(c) == WALL)
}

/// The labels of a grid on which nothing is labelled yet.
fn blank_labels(grid: &OccupancyGrid) -> (labels: CellMap<u64>)
    ensures
        labels@ == blank(grid),
        labels_fit(grid, &labels, 0),
{
    let rows = grid.rows();
    let cols = grid.cols();
    let mut labels: CellMap<u64> = grid.layer(0u64);
    let mut col: usize = 0;
    while col < cols
        invariant
            col <= cols,
            rows == grid.spec_rows(),
            cols == grid.spec_cols(),
            labels.spec_rows() == rows,
            labels.spec_cols() == cols,
            labels.area() == grid.area(),
            forall|c: Cell|
                grid.has(c) ==> #[trigger] labels.at(c) == (if c.1 < col && grid.blocked(c) {
                    WALL
                } else {
                    0u64
                }),
        decreases cols - col,
    {
        let mut row: usize = 0;
        while row < rows
            invariant
                row <= rows,
                col < cols,
                rows == grid.spec_rows(),
                cols == grid.spec_cols(),
                labels.spec_rows() == rows,
                labels.spec_cols() == cols,
                labels.area() == grid.area(),
                forall|c: Cell|
                    grid.has(c) ==> #[trigger] labels.at(c) == (if (c.1 < col || (c.1 == col && c.0
                        < row)) && grid.blocked(c) {
                        WALL
                    } else {
                        0u64
                    }),
            decreases rows - row,
        {
            if grid.is_blocked((row, col)) {
                labels.set((row, col), WALL);
            }
            row += 1;
        }
        col += 1;
    }
    proof {
        assert(labels@ =~= blank(grid));
    }
    labels
}

/// What one cell's spreading does: the unlabelled neighbours of `from` carry
/// `k + 1` afterwards and are `fresh`; no other label changes.
#[verifier::opaque]
spec fn spread_post(
    grid: &OccupancyGrid,
    before: &CellMap<u64>,
    after: &CellMap<u64>,
    from: Cell,
    k: u64,
    eight: bool,
    fresh: Seq<Cell>,
) -> bool {
    &&& after.spec_rows() == grid.spec_rows()
    &&& after.spec_cols() == grid.spec_cols()
    &&& after.area() == before.area()
    &&& forall|c: Cell|
        grid.has(c) ==> #[trigger] after.at(c) == before.at(c) || (before.at(c) == 0 && after.at(c) == k
            + 1 && touches(eight, from, c))
    &&& forall|c: Cell|
        grid.has(c) && touches(eight, from, c) && before.at(c) == 0 ==> #[trigger] after.at(c) == k + 1
    &&& forall|c: Cell|
        grid.has(c) && before.at(c) == 0 && #[trigger] after.at(c) == k + 1 ==> fresh.contains(c)
    &&& forall|i: int|
        0 <= i < fresh.len() ==> grid.has(#[trigger] fresh[i]) && after.at(fresh[i]) == k + 1
            && before.at(fresh[i]) == 0
    &&& after.count(unlabeled()) + fresh.len() == before.count(unlabeled())
}

/// Labels the unlabelled neighbours of `from` with `k + 1` and returns them.
fn spread(grid: &OccupancyGrid, labels: &mut CellMap<u64>, from: Cell, k: u64, eight: bool) -> (fresh:
    Vec<Cell>)
    requires
        grid.has(from),
        old(labels).spec_rows() == grid.spec_rows(),
        old(labels).spec_cols() == grid.spec_cols(),
        k < u64::MAX - 1,
    ensures
        final(labels).spec_rows() == grid.spec_rows(),
        final(labels).spec_cols() == grid.spec_cols(),
        spread_post(grid, old(labels), final(labels), from, k, eight, fresh@),
{
    let nbs = grid.neighbors(from, eight);
    let mut fresh: Vec<Cell> = Vec::new();
    let mut j: usize = 0;
    proof {
        assert forall|jj: int| 0 <= jj < nbs.len() implies grid.has(#[trigger] nbs[jj]) && touches(
            eight,
            from,
            nbs[jj],
        ) by {
            assert(nbs@.contains(nbs[jj]));
            lemma_around_touches(grid.spec_rows(), grid.spec_cols(), from, eight, nbs[jj]);
        }
    }
    while j < nbs.len()
        invariant
            j <= nbs.len(),
            k < u64::MAX - 1,
            forall|jj: int|
                0 <= jj < nbs.len() ==> grid.has(#[trigger] nbs[jj]) && touches(eight, from, nbs[jj]),
            labels.spec_rows() == grid.spec_rows(),
            labels.spec_cols() == grid.spec_cols(),
            labels.area() == old(labels).area(),
            forall|c: Cell|
                grid.has(c) ==> #[trigger] labels.at(c) == old(labels).at(c) || (old(labels).at(c) == 0
                    && labels.at(c) == k + 1 && touches(eight, from, c)),
            forall|jj: int|
                0 <= jj < j && old(labels).at(#[trigger] nbs[jj]) == 0 ==> labels.at(nbs[jj]) == k + 1,
            forall|c: Cell|
                grid.has(c) && old(labels).at(c) == 0 && #[trigger] labels.at(c) == k + 1
                    ==> fresh@.contains(c),
            forall|i: int|
                0 <= i < fresh.len() ==> grid.has(#[trigger] fresh[i]) && labels.at(fresh[i]) == k + 1
                    && old(labels).at(fresh[i]) == 0,
            labels.count(unlabeled()) + fresh.len() == old(labels).count(unlabeled()),
        decreases nbs.len() - j,
    {
        let q = nbs[j];
        assert(grid.has(nbs[j as int]));
        if labels.get(q) == 0 {
            let ghost mid = *labels;
            let ghost found = fresh@;
            labels.set(q, k + 1);
            fresh.push(q);
            proof {
                assert(unlabeled()(0u64));
                assert(!unlabeled()((k + 1) as u64));
                assert(labels.count(unlabeled()) + 1 == mid.count(unlabeled()));
                assert forall|c: Cell| grid.has(c) implies #[trigger] labels.at(c) == old(labels).at(c)
                    || (old(labels).at(c) == 0 && labels.at(c) == k + 1 && touches(eight, from, c)) by {
                    if c != q {
                        assert(labels.at(c) == mid.at(c));
                    } else {
                        assert(mid.at(q) == old(labels).at(q));
                    }
                }
                assert forall|jj: int|
                    0 <= jj < j + 1 && old(labels).at(#[trigger] nbs[jj]) == 0 implies labels.at(
                    nbs[jj],
                ) == k + 1 by {
                    if nbs[jj] != q {
                        assert(labels.at(nbs[jj]) == mid.at(nbs[jj]));
                    }
                }
                assert forall|i: int| 0 <= i < fresh.len() implies grid.has(#[trigger] fresh[i])
                    && labels.at(fresh[i]) == k + 1 && old(labels).at(fresh[i]) == 0 by {
                    if i < found.len() {
                        assert(fresh[i] == found[i]);
                        if found[i] != q {
                            assert(labels.at(found[i]) == mid.at(found[i]));
                        }
                    } else {
                        assert(mid.at(q) == old(labels).at(q));
                    }
                }
                assert forall|c: Cell|
                    grid.has(c) && old(labels).at(c) == 0 && #[trigger] labels.at(c) == k + 1 implies fresh@.contains(
                    c,
                ) by {
                    if c == q {
                        assert(fresh@[fresh.len() - 1] == q);
                    } else {
                        assert(mid.at(c) == k + 1);
                        let i = choose|i: int| 0 <= i < found.len() && found[i] == c;
                        assert(fresh@[i] == c);
                    }
                }
            }
        } else {
            proof {
                assert(labels.at(q) == old(labels).at(q) || (old(labels).at(q) == 0 && labels.at(q) == k
                    + 1));
            }
        }
        j += 1;
    }
    proof {
        assert forall|c: Cell|
            grid.has(c) && touches(eight, from, c) && old(labels).at(c) == 0 implies #[trigger] labels.at(
            c,
        ) == k + 1 by {
            lemma_around_touches(grid.spec_rows(), grid.spec_cols(), from, eight, c);
            let jj = choose|jj: int| 0 <= jj < nbs@.len() && nbs@[jj] == c;
            assert(old(labels).at(nbs[jj]) == 0);
        }
        reveal(spread_post);
    }
    fresh
}

/// What holds of the labels `now` in the middle of the round that labels
/// with `k + 1`, `fresh` being the cells labelled in it so far.
#[verifier::opaque]
spec fn round_progress(
    grid: &OccupancyGrid,
    before: &CellMap<u64>,
    now: &CellMap<u64>,
    eight: bool,
    k: u64,
    fresh: Seq<Cell>,
) -> bool {
    &&& now.spec_rows() == grid.spec_rows()
    &&& now.spec_cols() == grid.spec_cols()
    &&& now.area() == before.area()
    &&& forall|c: Cell|
        grid.has(c) ==> #[trigger] now.at(c) == before.at(c) || (before.at(c) == 0 && now.at(c) == k + 1
            && near(grid, before@, eight, c, k))
    &&& forall|c: Cell|
        grid.has(c) && before.at(c) == 0 && #[trigger] now.at(c) == k + 1 ==> fresh.contains(c)
    &&& forall|i: int|
        0 <= i < fresh.len() ==> grid.has(#[trigger] fresh[i]) && now.at(fresh[i]) == k + 1
            && before.at(fresh[i]) == 0
    &&& now.count(unlabeled()) + fresh.len() == before.count(unlabeled())
}

/// Whether every neighbour of `f` that was unlabelled before the round
/// carries `k + 1` now.
#[verifier::opaque]
spec fn spread_from(
    grid: &OccupancyGrid,
    before: &CellMap<u64>,
    now: &CellMap<u64>,
    eight: bool,
    k: u64,
    f: Cell,
) -> bool {
    forall|c: Cell|
        grid.has(c) && #[trigger] touches(eight, f, c) && before.at(c) == 0 ==> now.at(c) == k + 1
}

/// Spreading from one more cell labelled `k` keeps the round's progress and
/// what earlier cells have spread.
proof fn lemma_spread_step(
    grid: &OccupancyGrid,
    before: &CellMap<u64>,
    mid: &CellMap<u64>,
    after: &CellMap<u64>,
    eight: bool,
    k: u64,
    f: Cell,
    found: Seq<Cell>,
    fresh: Seq<Cell>,
)
    requires
        1 <= k < u64::MAX - 1,
        grid.has(f),
        before.at(f) == k,
        before.spec_rows() == grid.spec_rows(),
        before.spec_cols() == grid.spec_cols(),
        round_progress(grid, before, mid, eight, k, found),
        spread_post(grid, mid, after, f, k, eight, fresh),
    ensures
        round_progress(grid, before, after, eight, k, found + fresh),
        spread_from(grid, before, after, eight, k, f),
        forall|g: Cell|
            spread_from(grid, before, mid, eight, k, g) ==> #[trigger] spread_from(
                grid,
                before,
                after,
                eight,
                k,
                g,
            ),
{
    reveal(round_progress);
    reveal(spread_post);
    reveal(spread_from);
    let all = found + fresh;
    assert forall|c: Cell| grid.has(c) implies #[trigger] after.at(c) == before.at(c) || (before.at(c)
        == 0 && after.at(c) == k + 1 && near(grid, before@, eight, c, k)) by {
        assert(mid.at(c) == before.at(c) || (before.at(c) == 0 && mid.at(c) == k + 1 && near(
            grid,
            before@,
            eight,
            c,
            k,
        )));
        if after.at(c) != mid.at(c) {
            assert(touches(eight, c, f));
            assert(before@[f] == k);
        }
    }
    assert forall|c: Cell|
        grid.has(c) && before.at(c) == 0 && #[trigger] after.at(c) == k + 1 implies all.contains(c) by {
        assert(mid.at(c) == before.at(c) || mid.at(c) == k + 1);
        if mid.at(c) == k + 1 {
            let i = choose|i: int| 0 <= i < found.len() && found[i] == c;
            assert(all[i] == c);
        } else {
            let i = choose|i: int| 0 <= i < fresh.len() && fresh[i] == c;
            assert(all[found.len() + i] == c);
        }
    }
    assert forall|i: int| 0 <= i < all.len() implies grid.has(#[trigger] all[i]) && after.at(all[i])
        == k + 1 && before.at(all[i]) == 0 by {
        if i < found.len() {
            assert(all[i] == found[i]);
            assert(mid.at(found[i]) == k + 1);
            assert(after.at(found[i]) == mid.at(found[i]));
        } else {
            let c = fresh[i - found.len()];
            assert(all[i] == c);
            assert(mid.at(c) == before.at(c) || mid.at(c) == k + 1);
        }
    }
    assert forall|c: Cell|
        grid.has(c) && #[trigger] touches(eight, f, c) && before.at(c) == 0 implies after.at(c) == k
        + 1 by {
        assert(mid.at(c) == before.at(c) || mid.at(c) == k + 1);
        assert(after.at(c) == mid.at(c) || after.at(c) == k + 1);
    }
    assert forall|g: Cell| spread_from(grid, before, mid, eight, k, g) implies #[trigger] spread_from(
        grid,
        before,
        after,
        eight,
        k,
        g,
    ) by {
        assert forall|c: Cell|
            grid.has(c) && #[trigger] touches(eight, g, c) && before.at(c) == 0 implies after.at(c)
            == k + 1 by {
            assert(mid.at(c) == k + 1);
            assert(after.at(c) == mid.at(c) || after.at(c) == k + 1);
        }
    }
}

/// After a round in which every cell labelled `k` has spread, every free
/// cell that touches a cell labelled up to `k` carries a label.
proof fn lemma_round_closed(
    grid: &OccupancyGrid,
    before: &CellMap<u64>,
    after: &CellMap<u64>,
    eight: bool,
    k: u64,
    fresh: Seq<Cell>,
)
    requires
        1 <= k < u64::MAX - 1,
        labels_fit(grid, before, k),
        closed_below(grid, before, eight, k),
        round_progress(grid, before, after, eight, k, fresh),
        forall|f: Cell|
            grid.has(f) && before.at(f) == k ==> #[trigger] spread_from(grid, before, after, eight, k, f),
    ensures
        closed_below(grid, after, eight, (k + 1) as u64),
{
    reveal(round_progress);
    reveal(spread_from);
    reveal(closed_below);
    assert forall|c: Cell, q: Cell|
        grid.has(c) && 1 <= after.at(c) < k + 1 && grid.free(q) && #[trigger] touches(
            eight,
            c,
            q,
        ) implies 1 <= after.at(q) <= after.at(c) + 1 by {
        assert(after.at(c) == before.at(c) || (before.at(c) == 0 && after.at(c) == k + 1));
        assert(after.at(q) == before.at(q) || (before.at(q) == 0 && after.at(q) == k + 1));
        assert(before.at(q) <= k);
        if before.at(c) == k {
            assert(spread_from(grid, before, after, eight, k, c));
        }
    }
}

/// What is closed below a label is closed below every lower one.
proof fn lemma_closed_lower(grid: &OccupancyGrid, labels: &CellMap<u64>, eight: bool, k: u64, j: u64)
    requires
        closed_below(grid, labels, eight, k),
        j <= k,
    ensures
        closed_below(grid, labels, eight, j),
{
    reveal(closed_below);
}

/// After a round in which every cell labelled `k` has spread, the labels are
/// those of one round of relaxation.
proof fn lemma_round_done(
    grid: &OccupancyGrid,
    before: &CellMap<u64>,
    after: &CellMap<u64>,
    goal: Cell,
    eight: bool,
    k: u64,
    fresh: Seq<Cell>,
)
    requires
        1 <= k < u64::MAX - 1,
        labels_fit(grid, before, k),
        graded(grid, before, goal, eight),
        closed_below(grid, before, eight, k),
        round_progress(grid, before, after, eight, k, fresh),
        forall|f: Cell|
            grid.has(f) && before.at(f) == k ==> #[trigger] spread_from(grid, before, after, eight, k, f),
    ensures
        after@ == relax(grid, before@, eight, k),
        labels_fit(grid, after, (k + 1) as u64),
        fresh.len() == 0 ==> after@ == before@ && labels_fit(grid, after, k),
        fresh.len() > 0 ==> after@ != before@,
        is_front(grid, after, (k + 1) as u64, fresh),
        graded(grid, after, goal, eight),
        closed_below(grid, after, eight, (k + 1) as u64),
        after.count(unlabeled()) + fresh.len() == before.count(unlabeled()),
{
    lemma_round_closed(grid, before, after, eight, k, fresh);
    reveal(round_progress);
    reveal(spread_from);
    reveal(graded);
    reveal(is_front);
    assert forall|c: Cell| grid.has(c) implies (#[trigger] after.at(c) == 1 <==> c == goal) by {
        assert(after.at(c) == before.at(c) || (before.at(c) == 0 && after.at(c) == k + 1));
        assert(before.at(c) == 1 <==> c == goal);
    }
    assert forall|c: Cell| grid.has(c) && 2 <= #[trigger] after.at(c) < WALL implies near(
        grid,
        after@,
        eight,
        c,
        (after.at(c) - 1) as u64,
    ) by {
        assert(after.at(c) == before.at(c) || (before.at(c) == 0 && after.at(c) == k + 1 && near(
            grid,
            before@,
            eight,
            c,
            k,
        )));
        let v = (after.at(c) - 1) as u64;
        if after.at(c) == before.at(c) {
            assert(near(grid, before@, eight, c, v));
        }
        let q = choose|q: Cell| grid.has(q) && #[trigger] touches(eight, c, q) && before@[q] == v;
        assert(after.at(q) == before.at(q) || before.at(q) == 0);
        assert(after@[q] == v);
    }
    assert forall|c: Cell| grid.has(c) implies after@[c] == relax(grid, before@, eight, k)[c] by {
        assert(after.at(c) == before.at(c) || (before.at(c) == 0 && after.at(c) == k + 1 && near(
            grid,
            before@,
            eight,
            c,
            k,
        )));
        if before@[c] == 0 && near(grid, before@, eight, c, k) {
            let q = choose|q: Cell| grid.has(q) && #[trigger] touches(eight, c, q) && before@[q] == k;
            assert(spread_from(grid, before, after, eight, k, q));
            assert(touches(eight, q, c));
            assert(before.at(q) == k);
        }
    }
    assert(after@ =~= relax(grid, before@, eight, k));
    assert forall|c: Cell| grid.has(c) implies (grid.blocked(c) <==> #[trigger] after.at(c) == WALL)
        && (after.at(c) <= k + 1 || after.at(c) == WALL) by {
        assert(after.at(c) == before.at(c) || (before.at(c) == 0 && after.at(c) == k + 1));
        assert(grid.blocked(c) <==> before.at(c) == WALL);
    }
    if fresh.len() == 0 {
        assert forall|c: Cell| grid.has(c) implies after@[c] == before@[c] by {
            assert(after.at(c) == before.at(c) || (before.at(c) == 0 && after.at(c) == k + 1));
            if after.at(c) != before.at(c) {
                assert(fresh.contains(c));
            }
        }
        assert(after@ =~= before@);
        assert forall|c: Cell| grid.has(c) implies (grid.blocked(c) <==> #[trigger] after.at(c) == WALL)
            && (after.at(c) <= k || after.at(c) == WALL) by {
            assert(after@[c] == before@[c]);
        }
    } else {
        let c = fresh[0];
        assert(after@[c] == k + 1);
        assert(before@[c] == 0);
    }
    assert forall|c: Cell| grid.has(c) && #[trigger] after.at(c) == k + 1 implies fresh.contains(c) by {
        assert(after.at(c) == before.at(c) || (before.at(c) == 0 && after.at(c) == k + 1));
        assert(before.at(c) <= k || before.at(c) == WALL);
    }
}

/// The progress of a round that has not spread from any cell yet.
proof fn lemma_round_start(grid: &OccupancyGrid, before: &CellMap<u64>, eight: bool, k: u64)
    requires
        before.spec_rows() == grid.spec_rows(),
        before.spec_cols() == grid.spec_cols(),
    ensures
        round_progress(grid, before, before, eight, k, Seq::<Cell>::empty()),
{
    reveal(round_progress);
}

/// What the progress of a round says of a single cell.
proof fn lemma_round_cell(
    grid: &OccupancyGrid,
    before: &CellMap<u64>,
    now: &CellMap<u64>,
    eight: bool,
    k: u64,
    fresh: Seq<Cell>,
    c: Cell,
)
    requires
        round_progress(grid, before, now, eight, k, fresh),
        grid.has(c),
    ensures
        now.spec_rows() == grid.spec_rows(),
        now.spec_cols() == grid.spec_cols(),
        now.at(c) == before.at(c) || (before.at(c) == 0 && now.at(c) == k + 1),
{
    reveal(round_progress);
}

/// Once every cell of the front has spread, every cell labelled `k` has.
proof fn lemma_front_spread(
    grid: &OccupancyGrid,
    before: &CellMap<u64>,
    now: &CellMap<u64>,
    eight: bool,
    k: u64,
    front: Seq<Cell>,
)
    requires
        is_front(grid, before, k, front),
        forall|i: int|
            0 <= i < front.len() ==> spread_from(grid, before, now, eight, k, #[trigger] front[i]),
    ensures
        forall|f: Cell|
            grid.has(f) && before.at(f) == k ==> #[trigger] spread_from(grid, before, now, eight, k, f),
{
    reveal(is_front);
    assert forall|f: Cell| grid.has(f) && before.at(f) == k implies #[trigger] spread_from(
        grid,
        before,
        now,
        eight,
        k,
        f,
    ) by {
        let i = choose|i: int| 0 <= i < front.len() && front[i] == f;
        assert(spread_from(grid, before, now, eight, k, front[i]));
    }
}

/// A cell of the front lies on the grid and carries the front's label.
proof fn lemma_front_cell(grid: &OccupancyGrid, labels: &CellMap<u64>, k: u64, front: Seq<Cell>, i: int)
    requires
        is_front(grid, labels, k, front),
        0 <= i < front.len(),
    ensures
        grid.has(front[i]),
        labels.at(front[i]) == k,
{
    reveal(is_front);
}

/// Seeds the goal with label 1.
fn seed(grid: &OccupancyGrid, labels: &mut CellMap<u64>, goal: Cell)
    requires
        grid.free(goal),
        old(labels)@ == blank(grid),
        labels_fit(grid, old(labels), 0),
    ensures
        final(labels)@ == wave(grid, goal, false, 0),
        final(labels)@ == wave(grid, goal, true, 0),
        labels_fit(grid, final(labels), 1),
        final(labels).count(unlabeled()) < final(labels).area(),
        graded(grid, final(labels), goal, false),
        graded(grid, final(labels), goal, true),
        is_front(grid, final(labels), 1, seq![goal]),
        closed_below(grid, final(labels), false, 1),
        closed_below(grid, final(labels), true, 1),
        forall|c: Cell| grid.free(c) ==> #[trigger] final(labels).at(c) == (if c == goal {
            1u64
        } else {
            0u64
        }),
{
    proof {
        old(labels).lemma_count_bound(unlabeled());
        assert(old(labels)@[goal] == 0);
    }
    labels.set(goal, 1);
    proof {
        reveal(graded);
        reveal(is_front);
        reveal(closed_below);
        assert(seq![goal][0] == goal);
        assert(unlabeled()(0u64));
        assert(!unlabeled()(1u64));
        assert(labels@ =~= blank(grid).insert(goal, 1));
        assert forall|c: Cell| grid.has(c) implies (#[trigger] labels.at(c) == 1 <==> c == goal) by {
            if c != goal {
                assert(labels.at(c) == old(labels).at(c));
                assert(old(labels)@[c] == blank(grid)[c]);
            }
        }
        assert forall|c: Cell| grid.free(c) implies #[trigger] labels.at(c) == (if c == goal {
            1u64
        } else {
            0u64
        }) by {
            if c != goal {
                assert(labels.at(c) == old(labels).at(c));
                assert(old(labels)@[c] == blank(grid)[c]);
            }
        }
        assert forall|c: Cell| grid.has(c) implies !(2 <= #[trigger] labels.at(c) < WALL) by {
            if c != goal {
                assert(labels.at(c) == old(labels).at(c));
                assert(old(labels)@[c] == blank(grid)[c]);
            }
        }
        assert forall|c: Cell| grid.has(c) implies (grid.blocked(c) <==> #[trigger] labels.at(c) == WALL)
            && (labels.at(c) <= 1 || labels.at(c) == WALL) by {
            if c != goal {
                assert(labels.at(c) == old(labels).at(c));
            }
        }
    }
}

/// Whether `front` holds the cells labelled `k`, all of them.
#[verifier::opaque]
spec fn is_front(grid: &OccupancyGrid, labels: &CellMap<u64>, k: u64, front: Seq<Cell>) -> bool {
    &&& forall|i: int| 0 <= i < front.len() ==> grid.has(#[trigger] front[i]) && labels.at(front[i]) == k
    &&& forall|c: Cell| grid.has(c) && #[trigger] labels.at(c) == k ==> front.contains(c)
}

/// What graded labels say of one labelled cell: with label 1 it is the goal,
/// with a higher one it has a neighbour labelled one less.
proof fn lemma_graded_cell(grid: &OccupancyGrid, labels: &CellMap<u64>, goal: Cell, eight: bool, c: Cell) -> (w:
    Cell)
    requires
        labels.spec_rows() == grid.spec_rows(),
        labels.spec_cols() == grid.spec_cols(),
        graded(grid, labels, goal, eight),
        grid.has(c),
        0 < labels.at(c) < WALL,
    ensures
        labels.at(c) == 1 ==> c == goal,
        labels.at(c) != 1 ==> grid.has(w) && touches(eight, c, w) && touches(true, c, w) && labels.at(w)
            == labels.at(c) - 1,
{
    reveal(graded);
    if labels.at(c) != 1 {
        let v = (labels.at(c) - 1) as u64;
        assert(near(grid, labels@, eight, c, v));
        let w = choose|w: Cell| grid.has(w) && #[trigger] touches(eight, c, w) && labels@[w] == v;
        assert(labels@[w] == labels.at(w));
        assert(touches(true, c, w));
        w
    } else {
        c
    }
}

/// A labelled cell that is no wall is free.
proof fn lemma_labelled_free(grid: &OccupancyGrid, labels: &CellMap<u64>, k: u64, c: Cell)
    requires
        labels_fit(grid, labels, k),
        grid.has(c),
        labels.at(c) != WALL,
    ensures
        grid.free(c),
{
}

/// A descent from a labelled cell runs over free cells, each touching the
/// next, and ends at the goal.
proof fn lemma_descent_sound(
    grid: &OccupancyGrid,
    labels: &CellMap<u64>,
    goal: Cell,
    eight: bool,
    k: u64,
    c: Cell,
    path_eight: bool,
)
    requires
        labels_fit(grid, labels, k),
        graded(grid, labels, goal, eight),
        grid.has(c),
        0 < labels.at(c) < WALL,
    ensures
        ({
            let path = descent(grid.spec_rows(), grid.spec_cols(), labels@, c, path_eight);
            &&& path_free(grid, path)
            &&& path_joins(path, c, goal)
            &&& path_linked(path, eight || path_eight)
        }),
        reachable(grid, eight, goal, c),
    decreases labels.at(c),
{
    let rows = grid.spec_rows();
    let cols = grid.spec_cols();
    let lab = labels@;
    let v = lab[c];
    let path = descent(rows, cols, lab, c, path_eight);
    assert(labels.at(c) == v);
    let w = lemma_graded_cell(grid, labels, goal, eight, c);
    lemma_labelled_free(grid, labels, k, c);
    if v == 1 {
        assert(path =~= seq![c]);
        lemma_reach_self(grid, eight, c);
    } else {
        let cand = descent_order(rows, cols, c, path_eight);
        lemma_first_lower(lab, cand, v);
        lemma_descent_order(rows, cols, c, path_eight, w);
        let wi = choose|i: int| 0 <= i < cand.len() && cand[i] == w;
        assert(lab[w] == labels.at(w));
        assert(0 < lab[cand[wi]] < v);
        let q = first_lower(lab, cand, v)->0;
        lemma_descent_order(rows, cols, c, path_eight, q);
        assert(labels.at(q) == lab[q]);
        if !eight && !path_eight {
            let o = orthogonal(rows, cols, c);
            lemma_orthogonal_touches(rows, cols, c, w);
            let oi = choose|i: int| 0 <= i < o.len() && o[i] == w;
            lemma_first_lower(lab, o, v);
            assert(0 < lab[o[oi]] < v);
            lemma_first_lower_prefix(lab, o, diagonal(rows, cols, c), v);
            lemma_orthogonal_touches(rows, cols, c, q);
        }
        lemma_descent_sound(grid, labels, goal, eight, k, q, path_eight);
        let rest = descent(rows, cols, lab, q, path_eight);
        assert(path == seq![c] + rest);
        lemma_path_prepend(grid, c, rest, goal, eight || path_eight);
        lemma_labelled_free(grid, labels, k, w);
        lemma_descent_sound(grid, labels, goal, eight, k, w, path_eight);
        lemma_reach_step(grid, eight, goal, w, c);
    }
}

/// Along a path from the goal the labels rise by at most one a step, as long
/// as they stay below `k`.
proof fn lemma_path_labels(
    grid: &OccupancyGrid,
    labels: &CellMap<u64>,
    goal: Cell,
    eight: bool,
    k: u64,
    p: Seq<Cell>,
    i: int,
)
    requires
        graded(grid, labels, goal, eight),
        closed_below(grid, labels, eight, k),
        path_free(grid, p),
        path_linked(p, eight),
        p.len() >= 1,
        p[0] == goal,
        0 <= i < p.len(),
        i + 1 < k,
    ensures
        1 <= labels.at(p[i]) <= i + 1,
    decreases i,
{
    if i == 0 {
        reveal(graded);
        assert(grid.free(p[0]));
    } else {
        lemma_path_labels(grid, labels, goal, eight, k, p, i - 1);
        reveal(closed_below);
        assert(grid.free(p[i - 1]));
        assert(grid.free(p[i]));
        assert(touches(eight, p[i - 1], p[i]));
    }
}

/// A descent passes at most as many cells as the label of its first says,
/// and exactly as many unless it cuts corners of an orthogonal fill.
proof fn lemma_descent_length(
    grid: &OccupancyGrid,
    labels: &CellMap<u64>,
    goal: Cell,
    eight: bool,
    k: u64,
    c: Cell,
    path_eight: bool,
)
    requires
        labels_fit(grid, labels, k),
        graded(grid, labels, goal, eight),
        closed_below(grid, labels, eight, k),
        grid.has(c),
        0 < labels.at(c) < WALL,
    ensures
        descent(grid.spec_rows(), grid.spec_cols(), labels@, c, path_eight).len() <= labels.at(c),
        eight || !path_eight ==> descent(grid.spec_rows(), grid.spec_cols(), labels@, c, path_eight).len()
            == labels.at(c),
    decreases labels.at(c),
{
    let rows = grid.spec_rows();
    let cols = grid.spec_cols();
    let lab = labels@;
    let v = lab[c];
    assert(labels.at(c) == v);
    let w = lemma_graded_cell(grid, labels, goal, eight, c);
    lemma_labelled_free(grid, labels, k, c);
    if v != 1 {
        let cand = descent_order(rows, cols, c, path_eight);
        lemma_first_lower(lab, cand, v);
        lemma_descent_order(rows, cols, c, path_eight, w);
        let wi = choose|i: int| 0 <= i < cand.len() && cand[i] == w;
        assert(lab[w] == labels.at(w));
        assert(0 < lab[cand[wi]] < v);
        let q = first_lower(lab, cand, v)->0;
        lemma_descent_order(rows, cols, c, path_eight, q);
        assert(labels.at(q) == lab[q]);
        if !eight && !path_eight {
            let o = orthogonal(rows, cols, c);
            lemma_orthogonal_touches(rows, cols, c, w);
            let oi = choose|i: int| 0 <= i < o.len() && o[i] == w;
            lemma_first_lower(lab, o, v);
            assert(0 < lab[o[oi]] < v);
            lemma_first_lower_prefix(lab, o, diagonal(rows, cols, c), v);
            lemma_orthogonal_touches(rows, cols, c, q);
        }
        if eight || !path_eight {
            reveal(closed_below);
            assert(touches(eight, q, c));
            assert(labels.at(q) < k);
            assert(labels.at(c) <= labels.at(q) + 1);
        }
        lemma_descent_length(grid, labels, goal, eight, k, q, path_eight);
    }
}

/// Where every free cell that touches a labelled cell is labelled, a cell
/// without a label cannot be reached from the goal.
proof fn lemma_closed_unreachable(
    grid: &OccupancyGrid,
    labels: &CellMap<u64>,
    start: Cell,
    goal: Cell,
    eight: bool,
    k: u64,
)
    requires
        k < u64::MAX,
        labels_fit(grid, labels, k),
        graded(grid, labels, goal, eight),
        closed_below(grid, labels, eight, (k + 1) as u64),
        grid.free(start),
        grid.free(goal),
        labels.at(start) == 0,
    ensures
        !reachable(grid, eight, goal, start),
{
    if reachable(grid, eight, goal, start) {
        let path = choose|path: Seq<Cell>|
            #[trigger] path_joins(path, goal, start) && path_free(grid, path) && path_linked(path, eight);
        let inside = |c: Cell| grid.has(c) && 1 <= labels.at(c) < WALL;
        assert(inside(path[0])) by {
            reveal(graded);
        }
        assert forall|c: Cell, q: Cell|
            inside(c) && grid.free(q) && #[trigger] touches(eight, c, q) implies inside(q) by {
            reveal(closed_below);
            assert(labels.at(c) <= k);
            assert(labels.at(q) != WALL);
        }
        lemma_closed_holds(grid, eight, inside, path, path.len() - 1);
    }
}

/// Closes a run: the path is read off the labels where the start carries
/// one.
fn conclude(
    grid: &OccupancyGrid,
    start: Cell,
    goal: Cell,
    eight: bool,
    path_eight: bool,
    labels: CellMap<u64>,
    rounds: usize,
    k: u64,
) -> (res: FloodResult)
    requires
        grid.free(start),
        grid.free(goal),
        k < u64::MAX,
        k == rounds + 1,
        labels_fit(grid, &labels, k),
        graded(grid, &labels, goal, eight),
        labels.at(start) == 0 || labels.at(start) == k,
        labels.at(start) == 0 ==> closed_below(grid, &labels, eight, (k + 1) as u64),
        closed_below(grid, &labels, eight, k),
        labels@ == wave(grid, goal, eight, rounds as nat),
        fill_rounds(grid, start, goal, eight, rounds as nat),
    ensures
        flood_result(grid, start, goal, eight, path_eight, &res),
        flood_sound(grid, start, goal, eight, path_eight, &res),
{
    let v = labels.get(start);
    assert(labels@[start] == v);
    if v != 0 {
        let path = find_path(start, &labels, path_eight);
        proof {
            lemma_descent_sound(grid, &labels, goal, eight, k, start, path_eight);
            lemma_descent_length(grid, &labels, goal, eight, k, start, path_eight);
            lemma_reach_back(grid, eight, goal, start);
            assert forall|p: Seq<Cell>|
                #[trigger] path_joins(p, start, goal) && path_free(grid, p) && path_linked(
                    p,
                    eight,
                ) implies p.len() >= k by {
                lemma_path_backwards(grid, eight, p, start, goal);
                if p.len() < k {
                    lemma_path_labels(grid, &labels, goal, eight, k, backwards(p), p.len() - 1);
                }
            }
        }
        FloodResult { outcome: Outcome::Found, path, labels, rounds }
    } else {
        proof {
            lemma_closed_unreachable(grid, &labels, start, goal, eight, k);
            if reachable(grid, eight, start, goal) {
                lemma_reach_back(grid, eight, start, goal);
            }
        }
        FloodResult { outcome: Outcome::Unreachable, path: Vec::new(), labels, rounds }
    }
}

/// Flood fill that keeps the cells labelled in the last round and spreads
/// from these alone in the next.
///
/// With `eight` the labels spread to diagonal neighbours too; with
/// `path_eight` the path prefers diagonal steps.
pub fn fill_frontier(grid: &OccupancyGrid, start: Cell, goal: Cell, eight: bool, path_eight: bool) -> (res:
    FloodResult)
    ensures
        flood_result(grid, start, goal, eight, path_eight, &res),
        flood_sound(grid, start, goal, eight, path_eight, &res),
{
    let mut labels = blank_labels(grid);
    if grid.is_blocked(start) || grid.is_blocked(goal) {
        return FloodResult { outcome: Outcome::InvalidInput, path: Vec::new(), labels, rounds: 0 };
    }
    seed(grid, &mut labels, goal);
    let mut front: Vec<Cell> = Vec::new();
    front.push(goal);
    let mut k: u64 = 1;
    let mut rounds: usize = 0;
    proof {
        use_type_invariant(&labels);
        labels.lemma_area();
        assert(front@ =~= seq![goal]);
    }
    loop
        invariant_except_break
            is_front(grid, &labels, k, front@),
            closed_below(grid, &labels, eight, k),
        invariant
            grid.free(start),
            grid.free(goal),
            k == rounds + 1,
            labels_fit(grid, &labels, k),
            graded(grid, &labels, goal, eight),
            labels.at(start) == 0 || labels.at(start) == k,
            labels@ == wave(grid, goal, eight, rounds as nat),
            forall|m: nat| m < rounds ==> !#[trigger] settled(grid, start, goal, eight, m),
            rounds + labels.count(unlabeled()) < labels.area(),
            labels.area() < usize::MAX,
        ensures
            settled(grid, start, goal, eight, rounds as nat),
            labels.at(start) == 0 ==> closed_below(grid, &labels, eight, (k + 1) as u64),
            closed_below(grid, &labels, eight, k),
        decreases labels.count(unlabeled()),
    {
        let at_start = labels.get(start);
        assert(labels@[start] == at_start);
        if at_start != 0 {
            break ;
        }
        proof {
            use_type_invariant(&labels);
            labels.lemma_count_positive(start, unlabeled());
        }
        let ghost before = labels;
        let mut next: Vec<Cell> = Vec::new();
        let mut i: usize = 0;
        proof {
            lemma_round_start(grid, &before, eight, k);
        }
        while i < front.len()
            invariant
                i <= front.len(),
                1 <= k < u64::MAX - 1,
                before.spec_rows() == grid.spec_rows(),
                before.spec_cols() == grid.spec_cols(),
                labels.spec_rows() == grid.spec_rows(),
                labels.spec_cols() == grid.spec_cols(),
                is_front(grid, &before, k, front@),
                round_progress(grid, &before, &labels, eight, k, next@),
                forall|ii: int|
                    0 <= ii < i ==> spread_from(grid, &before, &labels, eight, k, #[trigger] front[ii]),
            decreases front.len() - i,
        {
            let f = front[i];
            let ghost mid = labels;
            let ghost found = next@;
            proof {
                lemma_front_cell(grid, &before, k, front@, i as int);
            }
            let mut fresh = spread(grid, &mut labels, f, k, eight);
            proof {
                lemma_spread_step(grid, &before, &mid, &labels, eight, k, f, found, fresh@);
            }
            next.append(&mut fresh);
            i += 1;
        }
        proof {
            lemma_front_spread(grid, &before, &labels, eight, k, front@);
            lemma_round_done(grid, &before, &labels, goal, eight, k, next@);
            lemma_round_cell(grid, &before, &labels, eight, k, next@, start);
            lemma_closed_lower(grid, &labels, eight, (k + 1) as u64, k);
            assert(wave(grid, goal, eight, (rounds + 1) as nat) == relax(
                grid,
                wave(grid, goal, eight, rounds as nat),
                eight,
                (rounds + 1) as u64,
            ));
        }
        if next.len() == 0 {
            break ;
        }
        front = next;
        k = k + 1;
        rounds = rounds + 1;
    }
    proof {
        assert(fill_rounds(grid, start, goal, eight, rounds as nat));
    }
    conclude(grid, start, goal, eight, path_eight, labels, rounds, k)
}

/// Whether `f` comes before the position `(row, col)` of a sweep that goes
/// through the grid column after column.
spec fn swept(f: Cell, row: usize, col: usize) -> bool {
    f.1 < col || (f.1 == col && f.0 < row)
}

/// Flood fill that scans every cell in each round and spreads from those
/// that the round before has labelled, until a round changes nothing or the
/// start is labelled.
///
/// With `eight` the labels spread to diagonal neighbours too; with
/// `path_eight` the path prefers diagonal steps.
pub fn fill_exhaustive(grid: &OccupancyGrid, start: Cell, goal: Cell, eight: bool, path_eight: bool) -> (res:
    FloodResult)
    ensures
        flood_result(grid, start, goal, eight, path_eight, &res),
        flood_sound(grid, start, goal, eight, path_eight, &res),
{
    let rows = grid.rows();
    let cols = grid.cols();
    let mut labels = blank_labels(grid);
    if grid.is_blocked(start) || grid.is_blocked(goal) {
        return FloodResult { outcome: Outcome::InvalidInput, path: Vec::new(), labels, rounds: 0 };
    }
    seed(grid, &mut labels, goal);
    let mut k: u64 = 1;
    let mut rounds: usize = 0;
    proof {
        use_type_invariant(&labels);
        labels.lemma_area();
    }
    loop
        invariant_except_break
            closed_below(grid, &labels, eight, k),
        invariant
            rows == grid.spec_rows(),
            cols == grid.spec_cols(),
            grid.free(start),
            grid.free(goal),
            k == rounds + 1,
            labels_fit(grid, &labels, k),
            graded(grid, &labels, goal, eight),
            labels.at(start) == 0 || labels.at(start) == k,
            labels@ == wave(grid, goal, eight, rounds as nat),
            forall|m: nat| m < rounds ==> !#[trigger] settled(grid, start, goal, eight, m),
            rounds + labels.count(unlabeled()) < labels.area(),
            labels.area() < usize::MAX,
        ensures
            settled(grid, start, goal, eight, rounds as nat),
            labels.at(start) == 0 ==> closed_below(grid, &labels, eight, (k + 1) as u64),
            closed_below(grid, &labels, eight, k),
        decreases labels.count(unlabeled()),
    {
        let at_start = labels.get(start);
        assert(labels@[start] == at_start);
        if at_start != 0 {
            break ;
        }
        proof {
            use_type_invariant(&labels);
            labels.lemma_count_positive(start, unlabeled());
        }
        let ghost before = labels;
        let ghost mut found: Seq<Cell> = Seq::empty();
        let mut changed = false;
        let mut col: usize = 0;
        proof {
            lemma_round_start(grid, &before, eight, k);
        }
        while col < cols
            invariant
                col <= cols,
                rows == grid.spec_rows(),
                cols == grid.spec_cols(),
                1 <= k < u64::MAX - 1,
                before.spec_rows() == grid.spec_rows(),
                before.spec_cols() == grid.spec_cols(),
                labels.spec_rows() == grid.spec_rows(),
                labels.spec_cols() == grid.spec_cols(),
                round_progress(grid, &before, &labels, eight, k, found),
                changed == (found.len() > 0),
                forall|f: Cell|
                    grid.has(f) && swept(f, 0, col) && before.at(f) == k ==> #[trigger] spread_from(
                        grid,
                        &before,
                        &labels,
                        eight,
                        k,
                        f,
                    ),
            decreases cols - col,
        {
            let mut row: usize = 0;
            while row < rows
                invariant
                    row <= rows,
                    col < cols,
                    rows == grid.spec_rows(),
                    cols == grid.spec_cols(),
                    1 <= k < u64::MAX - 1,
                    before.spec_rows() == grid.spec_rows(),
                    before.spec_cols() == grid.spec_cols(),
                    labels.spec_rows() == grid.spec_rows(),
                    labels.spec_cols() == grid.spec_cols(),
                    round_progress(grid, &before, &labels, eight, k, found),
                    changed == (found.len() > 0),
                    forall|f: Cell|
                        grid.has(f) && swept(f, row, col) && before.at(f) == k ==> #[trigger] spread_from(
                            grid,
                            &before,
                            &labels,
                            eight,
                            k,
                            f,
                        ),
                decreases rows - row,
            {
                let here = labels.get((row, col));
                proof {
                    lemma_round_cell(grid, &before, &labels, eight, k, found, (row, col));
                }
                if here == k {
                    let ghost mid = labels;
                    let fresh = spread(grid, &mut labels, (row, col), k, eight);
                    if fresh.len() > 0 {
                        changed = true;
                    }
                    proof {
                        lemma_spread_step(grid, &before, &mid, &labels, eight, k, (row, col), found, fresh@);
                        found = found + fresh@;
                    }
                }
                row += 1;
            }
            col += 1;
        }
        proof {
            lemma_round_done(grid, &before, &labels, goal, eight, k, found);
            lemma_round_cell(grid, &before, &labels, eight, k, found, start);
            lemma_closed_lower(grid, &labels, eight, (k + 1) as u64, k);
            assert(wave(grid, goal, eight, (rounds + 1) as nat) == relax(
                grid,
                wave(grid, goal, eight, rounds as nat),
                eight,
                (rounds + 1) as u64,
            ));
        }
        if !changed {
            break ;
        }
        k = k + 1;
        rounds = rounds + 1;
    }
    proof {
        assert(fill_rounds(grid, start, goal, eight, rounds as nat));
    }
    conclude(grid, start, goal, eight, path_eight, labels, rounds, k)
}

/// Flood fill over orthogonal steps, by exhaustive sweeps.
pub fn v1(grid: &OccupancyGrid, start: Cell, end: Cell) -> (res: FloodResult)
    ensures
        flood_result(grid, start, end, false, false, &res),
        flood_sound(grid, start, end, false, false, &res),
{
    fill_exhaustive(grid, start, end, false, false)
}

/// Flood fill over orthogonal steps, spreading from the last round's cells.
pub fn v2(grid: &OccupancyGrid, start: Cell, end: Cell) -> (res: FloodResult)
    ensures
        flood_result(grid, start, end, false, false, &res),
        flood_sound(grid, start, end, false, false, &res),
{
    fill_frontier(grid, start, end, false, false)
}

/// Flood fill over orthogonal and diagonal steps, spreading from the last
/// round's cells.
pub fn v3(grid: &OccupancyGrid, start: Cell, end: Cell) -> (res: FloodResult)
    ensures
        flood_result(grid, start, end, true, false, &res),
        flood_sound(grid, start, end, true, false, &res),
{
    fill_frontier(grid, start, end, true, false)
}

/// Flood fill over orthogonal steps whose path prefers diagonal steps.
pub fn v4(grid: &OccupancyGrid, start: Cell, end: Cell) -> (res: FloodResult)
    ensures
        flood_result(grid, start, end, false, true, &res),
        flood_sound(grid, start, end, false, true, &res),
{
    fill_frontier(grid, start, end, false, true)
}

/// The number of rounds of a flood fill is fixed by the grid, the start, the
/// goal and the connectivity.
pub proof fn lemma_fill_rounds_unique(
    grid: &OccupancyGrid,
    start: Cell,
    goal: Cell,
    eight: bool,
    a: nat,
    b: nat,
)
    requires
        fill_rounds(grid, start, goal, eight, a),
        fill_rounds(grid, start, goal, eight, b),
    ensures
        a == b,
{
    if a < b {
        assert(!settled(grid, start, goal, eight, a));
    }
    if b < a {
        assert(!settled(grid, start, goal, eight, b));
    }
}

/// The exhaustive and the frontier-driven flood fill agree: whatever two
/// runs on the same grid, start, goal and connectivities return, they report
/// the same outcome, the same labels and the same path.
pub proof fn lemma_variants_agree(
    grid: &OccupancyGrid,
    start: Cell,
    goal: Cell,
    eight: bool,
    path_eight: bool,
    a: &FloodResult,
    b: &FloodResult,
)
    requires
        flood_result(grid, start, goal, eight, path_eight, a),
        flood_result(grid, start, goal, eight, path_eight, b),
    ensures
        a.outcome == b.outcome,
        a.rounds == b.rounds,
        a.labels@ == b.labels@,
        a.path@ == b.path@,
        a.path@.len() == b.path@.len(),
{
    if grid.free(start) && grid.free(goal) {
        lemma_fill_rounds_unique(grid, start, goal, eight, a.rounds as nat, b.rounds as nat);
    }
}

/// Where start and goal are the same free cell, a flood fill finds the path
/// that holds this cell alone, without a round of relaxation.
pub proof fn lemma_start_is_goal(
    grid: &OccupancyGrid,
    cell: Cell,
    eight: bool,
    path_eight: bool,
    res: &FloodResult,
)
    requires
        grid.free(cell),
        flood_result(grid, cell, cell, eight, path_eight, res),
    ensures
        res.outcome == Outcome::Found,
        res.rounds == 0,
        res.path@ == seq![cell],
{
    assert(wave(grid, cell, eight, 0)[cell] == 1);
    assert(settled(grid, cell, cell, eight, 0));
    if res.rounds > 0 {
        assert(!settled(grid, cell, cell, eight, 0));
    }
}

/// The neighbour of `c` that is one step nearer to `goal`, rows first.
pub open spec fn step_toward(c: Cell, goal: Cell) -> Cell {
    if c.0 < goal.0 {
        ((c.0 + 1) as usize, c.1)
    } else if c.0 > goal.0 {
        ((c.0 - 1) as usize, c.1)
    } else if c.1 < goal.1 {
        (c.0, (c.1 + 1) as usize)
    } else {
        (c.0, (c.1 - 1) as usize)
    }
}

/// Whether no cell of the grid is blocked.
pub open spec fn open_grid(grid: &OccupancyGrid) -> bool {
    forall|c: Cell| grid.has(c) ==> !#[trigger] grid.blocked(c)
}

/// The label that `n` rounds over orthogonal steps give a cell of a grid
/// without obstacles: one more than its Manhattan distance from the goal,
/// where that is at most `n`.
pub open spec fn open_label(c: Cell, goal: Cell, n: nat) -> u64 {
    if manhattan(c, goal) <= n {
        (manhattan(c, goal) + 1) as u64
    } else {
        0
    }
}

/// On a grid without obstacles the labels after `n` rounds over orthogonal
/// steps are the Manhattan distances from the goal, plus one, up to `n`.
pub proof fn lemma_wave_open(grid: &OccupancyGrid, goal: Cell, n: nat, c: Cell)
    requires
        open_grid(grid),
        grid.has(goal),
        grid.has(c),
        n + 1 < u64::MAX,
    ensures
        wave(grid, goal, false, n)[c] == open_label(c, goal, n),
    decreases n,
{
    if n > 0 {
        let m = (n - 1) as nat;
        let prev = wave(grid, goal, false, m);
        lemma_wave_open(grid, goal, m, c);
        let d = manhattan(c, goal);
        if d == n {
            let q = step_toward(c, goal);
            lemma_wave_open(grid, goal, m, q);
            assert(touches(false, c, q));
            assert(near(grid, prev, false, c, n as u64));
        } else if d > n {
            assert forall|q: Cell| grid.has(q) && #[trigger] touches(false, c, q) implies prev[q] != n by {
                lemma_wave_open(grid, goal, m, q);
            }
        }
    }
}

/// Between two cells of the grid lies a cell at every Manhattan distance from
/// the second up to that of the first.
proof fn lemma_cell_at_distance(grid: &OccupancyGrid, from: Cell, goal: Cell, d: nat) -> (x: Cell)
    requires
        grid.has(from),
        grid.has(goal),
        d <= manhattan(from, goal),
    ensures
        grid.has(x),
        manhattan(x, goal) == d,
    decreases manhattan(from, goal),
{
    if manhattan(from, goal) == d {
        from
    } else {
        lemma_cell_at_distance(grid, step_toward(from, goal), goal, d)
    }
}

/// Where some candidate of `a` carries a label above 0 and below `v`, the
/// first such of `a + b` is the first such of `a`.
proof fn lemma_first_lower_prefix(lab: Map<Cell, u64>, a: Seq<Cell>, b: Seq<Cell>, v: u64)
    requires
        first_lower(lab, a, v) is Some,
    ensures
        first_lower(lab, a + b, v) == first_lower(lab, a, v),
    decreases a.len(),
{
    if a.len() > 0 {
        assert((a + b)[0] == a[0]);
        if !(0 < lab[a[0]] < v) {
            assert((a + b).drop_first() =~= a.drop_first() + b);
            lemma_first_lower_prefix(lab, a.drop_first(), b, v);
        }
    }
}

/// On a grid without obstacles, labelled over orthogonal steps, the descent
/// from a labelled cell passes as many cells as the label says.
pub proof fn lemma_open_descent_length(grid: &OccupancyGrid, goal: Cell, n: nat, c: Cell)
    requires
        open_grid(grid),
        grid.has(goal),
        grid.has(c),
        n + 1 < u64::MAX,
        manhattan(c, goal) <= n,
    ensures
        descent(grid.spec_rows(), grid.spec_cols(), wave(grid, goal, false, n), c, false).len()
            == manhattan(c, goal) + 1,
    decreases manhattan(c, goal),
{
    let rows = grid.spec_rows();
    let cols = grid.spec_cols();
    let lab = wave(grid, goal, false, n);
    lemma_wave_open(grid, goal, n, c);
    let v = lab[c];
    if v != 1 {
        let o = orthogonal(rows, cols, c);
        let d = diagonal(rows, cols, c);
        let w = step_toward(c, goal);
        lemma_wave_open(grid, goal, n, w);
        lemma_orthogonal_touches(rows, cols, c, w);
        let wi = choose|i: int| 0 <= i < o.len() && o[i] == w;
        lemma_first_lower(lab, o, v);
        assert(0 < lab[o[wi]] < v);
        lemma_first_lower_prefix(lab, o, d, v);
        let q = first_lower(lab, o, v)->0;
        lemma_orthogonal_touches(rows, cols, c, q);
        lemma_wave_open(grid, goal, n, q);
        lemma_open_descent_length(grid, goal, n, q);
    }
}

/// On a grid without obstacles a flood fill over orthogonal steps finds a
/// path of as many cells as the Manhattan distance between start and goal,
/// plus one.
pub proof fn lemma_open_grid_path_length(
    grid: &OccupancyGrid,
    start: Cell,
    goal: Cell,
    res: &FloodResult,
)
    requires
        grid.wf(),
        open_grid(grid),
        grid.has(start),
        grid.has(goal),
        flood_result(grid, start, goal, false, false, res),
    ensures
        res.outcome == Outcome::Found,
        res.rounds == manhattan(start, goal),
        res.path@.len() == manhattan(start, goal) + 1,
{
    let rows = grid.spec_rows();
    let cols = grid.spec_cols();
    let far = manhattan(start, goal) as nat;
    grid.lemma_area();
    lemma_wave_open(grid, goal, far, start);
    assert(settled(grid, start, goal, false, far));
    assert forall|m: nat| m < far implies !#[trigger] settled(grid, start, goal, false, m) by {
        lemma_wave_open(grid, goal, m, start);
        let x = lemma_cell_at_distance(grid, start, goal, m + 1);
        lemma_wave_open(grid, goal, m, x);
        lemma_wave_open(grid, goal, m + 1, x);
        assert(wave(grid, goal, false, m)[x] != wave(grid, goal, false, m + 1)[x]);
    }
    lemma_fill_rounds_unique(grid, start, goal, false, far, res.rounds as nat);
    lemma_open_descent_length(grid, goal, far, start);
}

} // verus!
