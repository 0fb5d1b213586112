//! Best-first search with batched expansion: each round expands every open
//! cell whose estimate is the lowest, and a neighbour's record is replaced
//! only by a strictly cheaper one.
//!
//! An orthogonal step costs 1, a diagonal one seven fifths, and a cost is the
//! sum of the steps as double precision carries it, rounded after every
//! step. The estimate of a cell is ten times its cost, rounded and cut off to
//! a whole number, plus ten times its Manhattan distance from the goal.

use crate::double::{
    add_rounded, lemma_rounded, lemma_rounded_close, sum, tenfold, whole, whole_tenfold, DIAGONAL,
    UNIT,
};
use crate::grid::{
    distance, lemma_around_distinct, lemma_around_touches, manhattan, touches, Cell, CellMap,
    OccupancyGrid, MAX_CELLS,
};
use crate::plan::{
    lemma_closed_holds, lemma_path_append, path_free, path_joins, path_linked, reachable, Outcome,
};
use vstd::prelude::*;

verus! {

/// The cost of an orthogonal step: 1.
pub const STEP_COST: u128 = UNIT;

/// The cost of a diagonal step: the number that double precision holds for
/// seven fifths.
pub const DIAGONAL_COST: u128 = DIAGONAL;

/// Twice the cost of an orthogonal step: more than a step adds to a cost.
pub const ROUND_COST: u128 = 0x20_0000_0000_0000;

/// The factor between a Manhattan distance and its share of an estimate.
pub const COST_SCALE: u64 = 10;

/// The estimate of an obstacle.
pub const WALL: u64 = u64::MAX;

/// What the search has recorded of a cell.
#[derive(Clone, Copy, Debug)]
pub struct Field {
    /// Whether the search has reached the cell.
    pub known: bool,
    /// Whether the cell has been expanded, or is an obstacle; its record is
    /// final then.
    pub processed: bool,
    /// The cell from which the cheapest way found so far arrives.
    pub prev: Option<(usize, usize)>,
    /// The cost of that way, as a multiple of 2 to the -52.
    pub cost: u128,
    /// The whole part of `COST_SCALE` times the cost, plus `COST_SCALE` times
    /// the distance.
    pub estimate: u64,
    /// The Manhattan distance from the goal.
    pub dist: usize,
}

/// The cost of the step between two neighbours.
pub open spec fn step_cost(a: Cell, b: Cell) -> u128 {
    if a.0 != b.0 && a.1 != b.1 {
        DIAGONAL_COST
    } else {
        STEP_COST
    }
}

/// The estimate that belongs to a cost and a distance.
pub open spec fn estimate_of(cost: u128, dist: usize) -> u64 {
    (whole(tenfold(cost)) + COST_SCALE * dist) as u64
}

/// The record of a cell that the search has not reached.
pub open spec fn untouched() -> Field {
    Field { known: false, processed: false, prev: None, cost: 0, estimate: 0, dist: 0 }
}

/// The record of an obstacle.
pub open spec fn wall_field() -> Field {
    Field { known: true, processed: true, prev: None, cost: u128::MAX, estimate: WALL, dist: 0 }
}

/// The record with which the start enters the search.
pub open spec fn start_field(start: Cell, goal: Cell) -> Field {
    Field {
        known: true,
        processed: false,
        prev: None,
        cost: 0,
        estimate: estimate_of(0, manhattan(start, goal) as usize),
        dist: manhattan(start, goal) as usize,
    }
}

/// The records before the search: nothing is known.
pub open spec fn blank(grid: &OccupancyGrid) -> Map<Cell, Field> {
    Map::new(|c: Cell| grid.has(c), |c: Cell| untouched())
}

/// The record of the neighbour `q` after a relaxation from `from`, whose cost
/// is `base`: an obstacle reached for the first time gets the record of an
/// obstacle, a final record stays, an unknown cell gets its first record, a
/// known one a new record where the way over `from` is strictly cheaper.
pub open spec fn relaxed(blocked: bool, goal: Cell, old: Field, from: Cell, base: u128, q: Cell) -> Field {
    let cost = sum(base, step_cost(from, q));
    if blocked {
        if old.known {
            old
        } else {
            wall_field()
        }
    } else if old.processed {
        old
    } else if !old.known {
        Field {
            known: true,
            processed: false,
            prev: Some(from),
            cost,
            estimate: estimate_of(cost, manhattan(q, goal) as usize),
            dist: manhattan(q, goal) as usize,
        }
    } else if cost < old.cost {
        Field {
            known: true,
            processed: false,
            prev: Some(from),
            cost,
            estimate: estimate_of(cost, old.dist),
            dist: old.dist,
        }
    } else {
        old
    }
}

/// The record of an expanded cell: as before, and final.
pub open spec fn closed_field(old: Field) -> Field {
    Field {
        known: old.known,
        processed: true,
        prev: old.prev,
        cost: old.cost,
        estimate: old.estimate,
        dist: old.dist,
    }
}

/// The records after the expansion of `cur`: `cur` is final and each of its
/// neighbours is relaxed.
pub open spec fn expand(grid: &OccupancyGrid, goal: Cell, nodes: Map<Cell, Field>, cur: Cell) -> Map<
    Cell,
    Field,
> {
    Map::new(
        |c: Cell| grid.has(c),
        |c: Cell|
            if c == cur {
                closed_field(nodes[cur])
            } else if touches(true, cur, c) {
                relaxed(grid.blocked(c), goal, nodes[c], cur, nodes[cur].cost, c)
            } else {
                nodes[c]
            },
    )
}

/// Those of `cells` that are no obstacles and that the records do not know
/// yet, in order.
pub open spec fn discovered(grid: &OccupancyGrid, nodes: Map<Cell, Field>, cells: Seq<Cell>) -> Seq<Cell>
    decreases cells.len(),
{
    if cells.len() == 0 {
        Seq::empty()
    } else {
        let rest = discovered(grid, nodes, cells.drop_last());
        if !nodes[cells.last()].known && !grid.blocked(cells.last()) {
            rest.push(cells.last())
        } else {
            rest
        }
    }
}

/// The way back from `c` along the predecessors, written from its far end to
/// `c`. A link is followed only to a cell of the map with a lower cost.
pub open spec fn trail(nodes: Map<Cell, Field>, c: Cell) -> Seq<Cell>
    decreases nodes[c].cost,
{
    match nodes[c].prev {
        Some(p) => if nodes.dom().contains(p) && nodes[p].cost < nodes[c].cost {
            trail(nodes, p).push(c)
        } else {
            seq![c]
        },
        None => seq![c],
    }
}

/// The highest cost that a record of a reached cell can hold.
spec fn cost_limit() -> int {
    ROUND_COST * MAX_CELLS
}

/// Within the limit, a step raises a cost, by less than `ROUND_COST`, and
/// the estimate of the new cost fits.
proof fn lemma_step(base: u128, step: u128)
    requires
        base <= cost_limit(),
        step == STEP_COST || step == DIAGONAL_COST,
    ensures
        base < sum(base, step) <= base + ROUND_COST,
        10 * sum(base, step) < crate::double::ROUND_MAX,
        whole(tenfold(sum(base, step))) <= 80 * MAX_CELLS + 80,
{
    let s = (base + step) as nat;
    assert(ROUND_COST * MAX_CELLS <= 0x20_0000_0000_0000 * 0x3_ffff_ffff_ffff) by (nonlinear_arith)
        requires
            MAX_CELLS <= 0x3_ffff_ffff_ffff,
    ;
    lemma_rounded_close(s);
    let c = sum(base, step);
    lemma_rounded((10 * c) as nat);
    vstd::arithmetic::div_mod::lemma_div_is_ordered(
        tenfold(c) as int,
        20 * (ROUND_COST * MAX_CELLS + ROUND_COST),
        UNIT as int,
    );
    assert(20 * (ROUND_COST * MAX_CELLS + ROUND_COST) == (40 * MAX_CELLS + 40) * UNIT) by (nonlinear_arith);
    vstd::arithmetic::div_mod::lemma_div_multiples_vanish(40 * MAX_CELLS + 40, UNIT as int);
}

/// Walks back from `end` along the predecessors and returns the cells passed,
/// the far end first and `end` last.
///
/// The walk follows a link only to a cell of the map whose cost is lower, so
/// it never leaves the map and always ends.
pub fn find_path(end: Cell, fields: &CellMap<Field>) -> (path: Vec<Cell>)
    requires
        fields.has(end),
    ensures
        path@ == trail(fields@, end),
{
    let mut back: Vec<Cell> = Vec::new();
    let mut cur = end;
    let ghost whole = trail(fields@, end);
    let ghost mut tail: Seq<Cell> = Seq::empty();
    proof {
        assert(trail(fields@, cur) + tail =~= whole);
    }
    loop
        invariant_except_break
            whole == trail(fields@, cur) + tail,
        invariant
            fields.has(cur),
            tail.len() == back.len(),
            forall|j: int| 0 <= j < tail.len() ==> #[trigger] tail[j] == back[back.len() - 1 - j],
        ensures
            whole == tail,
            tail.len() == back.len(),
            forall|j: int| 0 <= j < tail.len() ==> #[trigger] tail[j] == back[back.len() - 1 - j],
        decreases fields.at(cur).cost,
    {
        let here = fields.get(cur);
        assert(fields@[cur] == here);
        let ghost old_tail = tail;
        let ghost old_back = back@;
        back.push(cur);
        proof {
            tail = seq![cur] + old_tail;
            assert forall|j: int| 0 <= j < tail.len() implies #[trigger] tail[j] == back[back.len() - 1 - j] by {
                if j > 0 {
                    assert(tail[j] == old_tail[j - 1]);
                    assert(back[back.len() - 1 - j] == old_back[old_back.len() - 1 - (j - 1)]);
                }
            }
        }
        match here.prev {
            Some(p) => {
                if fields.contains(p) {
                    let there = fields.get(p);
                    assert(fields@[p] == there);
                    if there.cost < here.cost {
                        proof {
                            assert(trail(fields@, p).push(cur) + old_tail =~= trail(fields@, p) + tail);
                        }
                        cur = p;
                        continue ;
                    }
                }
                proof {
                    assert(seq![cur] + old_tail =~= tail);
                }
                break ;
            },
            None => {
                proof {
                    assert(seq![cur] + old_tail =~= tail);
                }
                break ;
            },
        }
    }
    let mut path: Vec<Cell> = Vec::new();
    let n = back.len();
    let mut i: usize = 0;
    while i < n
        invariant
            i <= n,
            n == back.len(),
            path.len() == i,
            forall|j: int| 0 <= j < i ==> #[trigger] path[j] == back[n - 1 - j],
        decreases n - i,
    {
        path.push(back[n - 1 - i]);
        i += 1;
    }
    proof {
        assert(path@ =~= tail);
    }
    path
}

/// Relaxes the neighbour `q` of `from`, whose cost is `base`. Returns whether
/// `q` was reached for the first time and is no obstacle.
fn relax(goal: Cell, blocked: bool, fields: &mut CellMap<Field>, from: Cell, base: u128, q: Cell) -> (fresh:
    bool)
    requires
        old(fields).has(q),
        old(fields).has(goal),
        base <= cost_limit(),
        old(fields).spec_rows() + old(fields).spec_cols() <= MAX_CELLS + 1,
        old(fields).at(q).dist <= MAX_CELLS + 1,
    ensures
        final(fields).spec_rows() == old(fields).spec_rows(),
        final(fields).spec_cols() == old(fields).spec_cols(),
        final(fields).area() == old(fields).area(),
        final(fields).at(q) == relaxed(blocked, goal, old(fields).at(q), from, base, q),
        forall|c: Cell| old(fields).has(c) && c != q ==> #[trigger] final(fields).at(c) == old(fields).at(c),
        fresh == (!blocked && !old(fields).at(q).known),
        final(fields).count(unprocessed()) <= old(fields).count(unprocessed()),
{
    let seen = fields.get(q);
    if blocked {
        if !seen.known {
            fields.set(
                q,
                Field { known: true, processed: true, prev: None, cost: u128::MAX, estimate: WALL, dist: 0 },
            );
        }
        return false;
    }
    if seen.processed {
        return !seen.known;
    }
    let step: u128 = if from.0 != q.0 && from.1 != q.1 {
        DIAGONAL_COST
    } else {
        STEP_COST
    };
    proof {
        lemma_step(base, step);
        assert(ROUND_COST * MAX_CELLS <= 0x20_0000_0000_0000 * 0x3_ffff_ffff_ffff) by (nonlinear_arith)
            requires
                MAX_CELLS <= 0x3_ffff_ffff_ffff,
        ;
    }
    let cost: u128 = add_rounded(base, step);
    let tenths: u64 = whole_tenfold(cost) as u64;
    if !seen.known {
        let dist = distance(q, goal);
        let fresh = Field {
            known: true,
            processed: false,
            prev: Some(from),
            cost,
            estimate: tenths + COST_SCALE * (dist as u64),
            dist,
        };
        fields.set(q, fresh);
        true
    } else {
        if cost < seen.cost {
            let better = Field {
                known: true,
                processed: false,
                prev: Some(from),
                cost,
                estimate: tenths + COST_SCALE * (seen.dist as u64),
                dist: seen.dist,
            };
            fields.set(q, better);
        }
        false
    }
}

/// The predicate "not final yet".
spec fn unprocessed() -> spec_fn(Field) -> bool {
    |f: Field| !f.processed
}

/// What holds of the records in the middle of the expansion of `cur`, the
/// neighbours in `done` being relaxed already.
spec fn expanding(
    grid: &OccupancyGrid,
    goal: Cell,
    before: &CellMap<Field>,
    now: &CellMap<Field>,
    cur: Cell,
    done: Seq<Cell>,
) -> bool {
    forall|c: Cell|
        grid.has(c) ==> #[trigger] now.at(c) == (if c == cur {
            closed_field(before.at(cur))
        } else if done.contains(c) {
            relaxed(grid.blocked(c), goal, before.at(c), cur, before.at(cur).cost, c)
        } else {
            before.at(c)
        })
}

/// Relaxing one more neighbour keeps the expansion in step with its
/// description.
proof fn lemma_expanding_step(
    grid: &OccupancyGrid,
    goal: Cell,
    before: &CellMap<Field>,
    mid: &CellMap<Field>,
    after: &CellMap<Field>,
    cur: Cell,
    nbs: Seq<Cell>,
    j: int,
)
    requires
        0 <= j < nbs.len(),
        grid.has(nbs[j]),
        nbs[j] != cur,
        forall|i: int| 0 <= i < j ==> nbs[i] != nbs[j],
        before.spec_rows() == grid.spec_rows(),
        before.spec_cols() == grid.spec_cols(),
        expanding(grid, goal, before, mid, cur, nbs.take(j)),
        after.at(nbs[j]) == relaxed(grid.blocked(nbs[j]), goal, mid.at(nbs[j]), cur, before.at(cur).cost, nbs[j]),
        forall|c: Cell| grid.has(c) && c != nbs[j] ==> #[trigger] after.at(c) == mid.at(c),
    ensures
        expanding(grid, goal, before, after, cur, nbs.take(j + 1)),
        mid.at(nbs[j]) == before.at(nbs[j]),
        discovered(grid, before@, nbs.take(j + 1)) == (if !before.at(nbs[j]).known && !grid.blocked(
            nbs[j],
        ) {
            discovered(grid, before@, nbs.take(j)).push(nbs[j])
        } else {
            discovered(grid, before@, nbs.take(j))
        }),
{
    let q = nbs[j];
    let done = nbs.take(j);
    let more = nbs.take(j + 1);
    assert(more.drop_last() =~= done);
    assert(more.last() == q);
    assert(before@[q] == before.at(q));
    if done.contains(q) {
        let i = choose|i: int| 0 <= i < done.len() && done[i] == q;
        assert(nbs[i] == q);
    }
    assert(mid.at(q) == before.at(q));
    assert forall|c: Cell| grid.has(c) implies #[trigger] after.at(c) == (if c == cur {
        closed_field(before.at(cur))
    } else if more.contains(c) {
        relaxed(grid.blocked(c), goal, before.at(c), cur, before.at(cur).cost, c)
    } else {
        before.at(c)
    }) by {
        if c == q {
            assert(more[j] == q);
        } else {
            assert(after.at(c) == mid.at(c));
            if done.contains(c) {
                let i = choose|i: int| 0 <= i < done.len() && done[i] == c;
                assert(more[i] == c);
            }
            if more.contains(c) {
                let i = choose|i: int| 0 <= i < more.len() && more[i] == c;
                assert(done[i] == c);
            }
        }
    }
}

/// Once every neighbour is relaxed, the records are those of the expansion.
proof fn lemma_expanding_done(
    grid: &OccupancyGrid,
    goal: Cell,
    before: &CellMap<Field>,
    after: &CellMap<Field>,
    cur: Cell,
)
    requires
        grid.has(cur),
        before.spec_rows() == grid.spec_rows(),
        before.spec_cols() == grid.spec_cols(),
        after.spec_rows() == grid.spec_rows(),
        after.spec_cols() == grid.spec_cols(),
        expanding(grid, goal, before, after, cur, grid.around(cur, true)),
    ensures
        after@ == expand(grid, goal, before@, cur),
{
    assert forall|c: Cell| grid.has(c) implies #[trigger] after@[c] == expand(grid, goal, before@, cur)[c] by {
        lemma_around_touches(grid.spec_rows(), grid.spec_cols(), cur, true, c);
        assert(after@[c] == after.at(c));
        assert(before@[c] == before.at(c));
        assert(before@[cur] == before.at(cur));
    }
    assert(after@ =~= expand(grid, goal, before@, cur));
}

/// Makes the record of `cur` final and returns its cost.
fn close_cell(grid: &OccupancyGrid, goal: Cell, fields: &mut CellMap<Field>, cur: Cell) -> (base: u128)
    requires
        grid.has(cur),
        old(fields).spec_rows() == grid.spec_rows(),
        old(fields).spec_cols() == grid.spec_cols(),
    ensures
        final(fields).spec_rows() == grid.spec_rows(),
        final(fields).spec_cols() == grid.spec_cols(),
        final(fields).area() == old(fields).area(),
        base == old(fields).at(cur).cost,
        expanding(grid, goal, old(fields), final(fields), cur, Seq::<Cell>::empty()),
        final(fields).count(unprocessed()) + (if old(fields).at(cur).processed {
            0nat
        } else {
            1nat
        }) <= old(fields).count(unprocessed()),
        forall|c: Cell| grid.has(c) ==> #[trigger] final(fields).at(c).dist == old(fields).at(c).dist,
{
    let here = fields.get(cur);
    fields.set(
        cur,
        Field {
            known: here.known,
            processed: true,
            prev: here.prev,
            cost: here.cost,
            estimate: here.estimate,
            dist: here.dist,
        },
    );
    proof {
        assert(unprocessed()(here) == !here.processed);
        assert(!unprocessed()(closed_field(here)));
        assert forall|c: Cell| grid.has(c) implies #[trigger] fields.at(c).dist == old(fields).at(c).dist by {
            if c != cur {
                assert(fields.at(c) == old(fields).at(c));
            }
        }
    }
    here.cost
}

/// Expands `cur`: its record becomes final, its neighbours are relaxed, and
/// those reached for the first time join `open`.
fn expand_cell(grid: &OccupancyGrid, goal: Cell, fields: &mut CellMap<Field>, cur: Cell, open: &mut Vec<Cell>)
    requires
        grid.has(cur),
        grid.has(goal),
        old(fields).spec_rows() == grid.spec_rows(),
        old(fields).spec_cols() == grid.spec_cols(),
        grid.spec_rows() + grid.spec_cols() <= MAX_CELLS + 1,
        old(fields).at(cur).cost <= cost_limit(),
        forall|c: Cell| grid.has(c) ==> #[trigger] old(fields).at(c).dist <= MAX_CELLS + 1,
    ensures
        final(fields).spec_rows() == grid.spec_rows(),
        final(fields).spec_cols() == grid.spec_cols(),
        final(fields).area() == old(fields).area(),
        final(fields)@ == expand(grid, goal, old(fields)@, cur),
        final(open)@ == old(open)@ + discovered(grid, old(fields)@, grid.around(cur, true)),
        final(fields).count(unprocessed()) + (if old(fields).at(cur).processed {
            0nat
        } else {
            1nat
        }) <= old(fields).count(unprocessed()),
        forall|c: Cell| grid.has(c) ==> #[trigger] final(fields).at(c).dist <= MAX_CELLS + 1,
{
    let base = close_cell(grid, goal, fields, cur);
    let nbs = grid.neighbors8(cur);
    let mut j: usize = 0;
    proof {
        lemma_around_distinct(grid.spec_rows(), grid.spec_cols(), cur, true);
        assert forall|jj: int| 0 <= jj < nbs.len() implies grid.has(#[trigger] nbs[jj]) && nbs[jj]
            != cur by {
            assert(nbs@.contains(nbs[jj]));
            lemma_around_touches(grid.spec_rows(), grid.spec_cols(), cur, true, nbs[jj]);
        }
        assert(nbs@.take(0) =~= Seq::<Cell>::empty());
        assert(open@ + discovered(grid, old(fields)@, nbs@.take(0)) =~= open@);
    }
    while j < nbs.len()
        invariant
            j <= nbs.len(),
            grid.has(cur),
            grid.has(goal),
            base == old(fields).at(cur).cost,
            base <= cost_limit(),
            grid.spec_rows() + grid.spec_cols() <= MAX_CELLS + 1,
            old(fields).spec_rows() == grid.spec_rows(),
            old(fields).spec_cols() == grid.spec_cols(),
            fields.spec_rows() == grid.spec_rows(),
            fields.spec_cols() == grid.spec_cols(),
            fields.area() == old(fields).area(),
            forall|jj: int| 0 <= jj < nbs.len() ==> grid.has(#[trigger] nbs[jj]) && nbs[jj] != cur,
            forall|a: int, b: int| 0 <= a < b < nbs.len() ==> nbs[a] != nbs[b],
            expanding(grid, goal, old(fields), fields, cur, nbs@.take(j as int)),
            open@ == old(open)@ + discovered(grid, old(fields)@, nbs@.take(j as int)),
            fields.count(unprocessed()) + (if old(fields).at(cur).processed {
                0nat
            } else {
                1nat
            }) <= old(fields).count(unprocessed()),
            forall|c: Cell| grid.has(c) ==> #[trigger] fields.at(c).dist <= MAX_CELLS + 1,
        decreases nbs.len() - j,
    {
        let q = nbs[j];
        let ghost mid = *fields;
        let ghost listed = open@;
        assert(grid.has(nbs[j as int]));
        let blocked = grid.is_blocked(q);
        let fresh = relax(goal, blocked, fields, cur, base, q);
        if fresh {
            open.push(q);
        }
        proof {
            lemma_expanding_step(grid, goal, old(fields), &mid, fields, cur, nbs@, j as int);
            if fresh {
                assert(listed.push(q) =~= old(open)@ + discovered(grid, old(fields)@, nbs@.take(j as int)).push(
                    q,
                ));
            }
            assert forall|c: Cell| grid.has(c) implies #[trigger] fields.at(c).dist <= MAX_CELLS + 1 by {
                if c != q {
                    assert(fields.at(c) == mid.at(c));
                }
            }
        }
        j += 1;
    }
    proof {
        assert(nbs@.take(nbs.len() as int) =~= nbs@);
        lemma_expanding_done(grid, goal, old(fields), fields, cur);
    }
}

/// The lowest estimate among `cells`; `WALL` where there is none.
pub open spec fn lowest(nodes: Map<Cell, Field>, cells: Seq<Cell>) -> u64
    decreases cells.len(),
{
    if cells.len() == 0 {
        WALL
    } else {
        let m = lowest(nodes, cells.drop_last());
        let e = nodes[cells.last()].estimate;
        if e < m {
            e
        } else {
            m
        }
    }
}

/// Those of `cells` whose estimate is `m`, with `tied`, or is not, without;
/// in order.
pub open spec fn pick(nodes: Map<Cell, Field>, cells: Seq<Cell>, m: u64, tied: bool) -> Seq<Cell>
    decreases cells.len(),
{
    if cells.len() == 0 {
        Seq::empty()
    } else {
        let rest = pick(nodes, cells.drop_last(), m, tied);
        if (nodes[cells.last()].estimate == m) == tied {
            rest.push(cells.last())
        } else {
            rest
        }
    }
}

/// The state of a search between two rounds: the records, and the cells that
/// are known and not final, in the order in which they were reached.
pub struct SearchState {
    pub nodes: Map<Cell, Field>,
    pub open: Seq<Cell>,
}

/// The state after the expansion of the cells of `batch`, one after the
/// other.
pub open spec fn expand_all(grid: &OccupancyGrid, goal: Cell, st: SearchState, batch: Seq<Cell>) -> SearchState
    decreases batch.len(),
{
    if batch.len() == 0 {
        st
    } else {
        let s = expand_all(grid, goal, st, batch.drop_last());
        let cur = batch.last();
        SearchState {
            nodes: expand(grid, goal, s.nodes, cur),
            open: s.open + discovered(grid, s.nodes, grid.around(cur, true)),
        }
    }
}

/// One round: every open cell whose estimate is the lowest is expanded, in
/// the order of the open cells; the others stay open, followed by the cells
/// that the round reaches for the first time.
pub open spec fn round(grid: &OccupancyGrid, goal: Cell, st: SearchState) -> SearchState {
    let m = lowest(st.nodes, st.open);
    expand_all(
        grid,
        goal,
        SearchState { nodes: st.nodes, open: pick(st.nodes, st.open, m, false) },
        pick(st.nodes, st.open, m, true),
    )
}

/// The state after `n` rounds of the search from `start`.
pub open spec fn search(grid: &OccupancyGrid, start: Cell, goal: Cell, n: nat) -> SearchState
    decreases n,
{
    if n == 0 {
        SearchState { nodes: blank(grid).insert(start, start_field(start, goal)), open: seq![start] }
    } else {
        round(grid, goal, search(grid, start, goal, (n - 1) as nat))
    }
}

/// Whether the search stops in the state `st`: the goal is reached, or no
/// cell is open.
pub open spec fn stopped(st: SearchState, goal: Cell) -> bool {
    st.nodes[goal].known || st.open.len() == 0
}

/// Whether `n` is the number of rounds that the search runs: the first after
/// which it stops.
pub open spec fn search_rounds(grid: &OccupancyGrid, start: Cell, goal: Cell, n: nat) -> bool {
    stopped(search(grid, start, goal, n), goal) && forall|m: nat|
        m < n ==> !stopped(#[trigger] search(grid, start, goal, m), goal)
}

/// What a search returns.
pub struct SearchResult {
    /// How the run ended.
    pub outcome: Outcome,
    /// The cells from start to goal; empty unless the outcome is `Found`.
    pub path: Vec<Cell>,
    /// The record of every cell when the search stopped.
    pub fields: CellMap<Field>,
    /// The number of rounds.
    pub rounds: usize,
}

/// What a search from `start` to `goal` has to return.
pub open spec fn search_result(grid: &OccupancyGrid, start: Cell, goal: Cell, res: &SearchResult) -> bool {
    &&& res.fields.spec_rows() == grid.spec_rows()
    &&& res.fields.spec_cols() == grid.spec_cols()
    &&& if !grid.free(start) || !grid.free(goal) {
        &&& res.outcome == Outcome::InvalidInput
        &&& res.path@ == Seq::<Cell>::empty()
        &&& res.rounds == 0
        &&& res.fields@ == blank(grid)
    } else {
        &&& search_rounds(grid, start, goal, res.rounds as nat)
        &&& res.fields@ == search(grid, start, goal, res.rounds as nat).nodes
        &&& if res.fields@[goal].known {
            &&& res.outcome == Outcome::Found
            &&& res.path@ == trail(res.fields@, goal)
        } else {
            &&& res.outcome == Outcome::Unreachable
            &&& res.path@ == Seq::<Cell>::empty()
        }
    }
}

/// What a search is worth: its path runs over free cells alone; where one
/// was found it leads from `start` to `goal`, each cell touching the next;
/// and one is found exactly where the goal can be reached from the start over
/// free cells in orthogonal and diagonal steps.
pub open spec fn search_sound(grid: &OccupancyGrid, start: Cell, goal: Cell, res: &SearchResult) -> bool {
    &&& path_free(grid, res.path@)
    &&& res.outcome == Outcome::Found ==> path_joins(res.path@, start, goal) && path_linked(
        res.path@,
        true,
    )
    &&& grid.free(start) && grid.free(goal) ==> (res.outcome == Outcome::Found <==> reachable(
        grid,
        true,
        start,
        goal,
    ))
}

/// Whether the record of `c` points back to a final neighbour over which its
/// cost is reached.
spec fn linked_back(grid: &OccupancyGrid, fields: &CellMap<Field>, c: Cell) -> bool {
    fields.at(c).prev matches Some(p) && grid.free(p) && touches(true, p, c) && fields.at(p).known
        && fields.at(p).processed && fields.at(c).cost == sum(fields.at(p).cost, step_cost(p, c))
}

/// What holds of the records throughout a search, `bound` being above every
/// cost reached.
#[verifier::opaque]
spec fn tidy(grid: &OccupancyGrid, start: Cell, goal: Cell, fields: &CellMap<Field>, bound: int) -> bool {
    &&& grid.free(start)
    &&& fields.at(start).known
    &&& forall|c: Cell|
        grid.has(c) && grid.blocked(c) ==> #[trigger] fields.at(c) == wall_field() || fields.at(c)
            == untouched()
    &&& forall|c: Cell| grid.has(c) && !(#[trigger] fields.at(c)).known ==> !fields.at(c).processed
    &&& forall|c: Cell|
        grid.has(c) && !grid.blocked(c) && (#[trigger] fields.at(c)).known ==> {
            &&& fields.at(c).cost <= bound
            &&& c == start ==> fields.at(c).prev is None && fields.at(c).cost == 0
            &&& c != start ==> linked_back(grid, fields, c)
        }
    &&& forall|c: Cell, q: Cell|
        grid.free(c) && fields.at(c).processed && grid.has(q) && #[trigger] touches(true, c, q)
            ==> fields.at(q).known
}

/// Whether every cell that is known and not final is in one of two lists.
#[verifier::opaque]
spec fn covers(grid: &OccupancyGrid, fields: &CellMap<Field>, a: Seq<Cell>, b: Seq<Cell>) -> bool {
    forall|c: Cell|
        grid.has(c) && (#[trigger] fields.at(c)).known && !fields.at(c).processed ==> a.contains(c)
            || b.contains(c)
}

/// Whether the first `n` cells of a list, as far as they lie on the grid, are
/// final.
#[verifier::opaque]
spec fn done(grid: &OccupancyGrid, fields: &CellMap<Field>, cells: Seq<Cell>, n: int) -> bool {
    forall|j: int|
        0 <= j < n && j < cells.len() && grid.has(cells[j]) ==> (#[trigger] fields.at(cells[j])).processed
}

/// Whether every cell of `cells` is a known free cell whose cost is at most
/// `bound`.
#[verifier::opaque]
spec fn listed(grid: &OccupancyGrid, fields: &CellMap<Field>, cells: Seq<Cell>, bound: int) -> bool {
    forall|i: int|
        0 <= i < cells.len() ==> grid.free(#[trigger] cells[i]) && fields.at(cells[i]).known
            && fields.at(cells[i]).cost <= bound
}

/// Whether every cell of `cells` is known and not final.
#[verifier::opaque]
spec fn open_cells(grid: &OccupancyGrid, fields: &CellMap<Field>, cells: Seq<Cell>) -> bool {
    forall|i: int|
        0 <= i < cells.len() ==> grid.has(#[trigger] cells[i]) && fields.at(cells[i]).known
            && !fields.at(cells[i]).processed
}

/// Whether no cell of `a` is a cell of `b`.
#[verifier::opaque]
spec fn apart(a: Seq<Cell>, b: Seq<Cell>) -> bool {
    forall|i: int, j: int| 0 <= i < a.len() && 0 <= j < b.len() ==> a[i] != b[j]
}

/// A picked cell is one of the cells picked from, with an estimate as asked.
proof fn lemma_pick_member(nodes: Map<Cell, Field>, cells: Seq<Cell>, m: u64, tied: bool, i: int)
    requires
        0 <= i < pick(nodes, cells, m, tied).len(),
    ensures
        cells.contains(pick(nodes, cells, m, tied)[i]),
        (nodes[pick(nodes, cells, m, tied)[i]].estimate == m) == tied,
    decreases cells.len(),
{
    if cells.len() > 0 {
        let rest = pick(nodes, cells.drop_last(), m, tied);
        if i < rest.len() {
            lemma_pick_member(nodes, cells.drop_last(), m, tied, i);
            let j = choose|j: int| 0 <= j < cells.drop_last().len() && cells.drop_last()[j] == rest[i];
            assert(cells[j] == rest[i]);
        } else {
            assert(cells[cells.len() - 1] == cells.last());
        }
    }
}

/// Among cells, some cell holds the lowest estimate.
proof fn lemma_lowest_attained(nodes: Map<Cell, Field>, cells: Seq<Cell>)
    requires
        cells.len() > 0,
    ensures
        pick(nodes, cells, lowest(nodes, cells), true).len() > 0,
    decreases cells.len(),
{
    let m = lowest(nodes, cells);
    let front = cells.drop_last();
    if nodes[cells.last()].estimate != m {
        if front.len() == 0 {
            assert(lowest(nodes, front) == WALL);
        }
        lemma_lowest_attained(nodes, front);
    }
}

/// A discovered cell is one of the cells looked at, and was not known.
proof fn lemma_discovered_member(grid: &OccupancyGrid, nodes: Map<Cell, Field>, cells: Seq<Cell>, i: int)
    requires
        0 <= i < discovered(grid, nodes, cells).len(),
    ensures
        cells.contains(discovered(grid, nodes, cells)[i]),
        !nodes[discovered(grid, nodes, cells)[i]].known,
        !grid.blocked(discovered(grid, nodes, cells)[i]),
    decreases cells.len(),
{
    if cells.len() > 0 {
        let rest = discovered(grid, nodes, cells.drop_last());
        if i < rest.len() {
            lemma_discovered_member(grid, nodes, cells.drop_last(), i);
            let j = choose|j: int| 0 <= j < cells.drop_last().len() && cells.drop_last()[j] == rest[i];
            assert(cells[j] == rest[i]);
        } else {
            assert(cells[cells.len() - 1] == cells.last());
        }
    }
}

/// An expansion never raises the cost of a known cell, and never forgets
/// one.
pub proof fn lemma_expand_costs(grid: &OccupancyGrid, goal: Cell, nodes: Map<Cell, Field>, cur: Cell, c: Cell)
    requires
        grid.has(c),
        nodes[c].known,
    ensures
        expand(grid, goal, nodes, cur)[c].known,
        expand(grid, goal, nodes, cur)[c].cost <= nodes[c].cost,
{
}

/// The record of a cell after the expansion of `cur`.
spec fn expanded_at(grid: &OccupancyGrid, goal: Cell, before: &CellMap<Field>, cur: Cell, c: Cell) -> Field {
    if c == cur {
        closed_field(before.at(cur))
    } else if touches(true, cur, c) {
        relaxed(grid.blocked(c), goal, before.at(c), cur, before.at(cur).cost, c)
    } else {
        before.at(c)
    }
}

/// After an expansion every cell holds its expanded record.
proof fn lemma_expand_at(
    grid: &OccupancyGrid,
    goal: Cell,
    before: &CellMap<Field>,
    after: &CellMap<Field>,
    cur: Cell,
)
    requires
        grid.has(cur),
        before.spec_rows() == grid.spec_rows(),
        before.spec_cols() == grid.spec_cols(),
        after.spec_rows() == grid.spec_rows(),
        after.spec_cols() == grid.spec_cols(),
        after@ == expand(grid, goal, before@, cur),
    ensures
        forall|c: Cell| grid.has(c) ==> #[trigger] after.at(c) == expanded_at(grid, goal, before, cur, c),
{
    assert(before@[cur] == before.at(cur));
    assert forall|c: Cell| grid.has(c) implies #[trigger] after.at(c) == expanded_at(grid, goal, before, cur, c) by {
        assert(after@[c] == after.at(c));
        assert(before@[c] == before.at(c));
    }
}

/// What the records say of one known free cell.
spec fn tidy_cell(grid: &OccupancyGrid, start: Cell, fields: &CellMap<Field>, bound: int, c: Cell) -> bool {
    &&& fields.at(c).cost <= bound
    &&& c == start ==> fields.at(c).prev is None && fields.at(c).cost == 0
    &&& c != start ==> linked_back(grid, fields, c)
}

/// The expansion of a known free cell within the bound keeps one known free
/// cell in order.
proof fn lemma_expand_cell_tidy(
    grid: &OccupancyGrid,
    start: Cell,
    goal: Cell,
    before: &CellMap<Field>,
    after: &CellMap<Field>,
    cur: Cell,
    bound: int,
    c: Cell,
)
    requires
        grid.free(cur),
        before.at(cur).known,
        before.at(cur).cost <= bound - ROUND_COST,
        bound <= cost_limit() + ROUND_COST,
        grid.has(c),
        !grid.blocked(c),
        after.at(c).known,
        before.at(start).known,
        before.at(c).known ==> tidy_cell(grid, start, before, bound, c),
        !before.at(c).known ==> !before.at(c).processed,
        forall|x: Cell| grid.has(x) ==> #[trigger] after.at(x) == expanded_at(grid, goal, before, cur, x),
    ensures
        tidy_cell(grid, start, after, bound, c),
{
    assert(after.at(c) == expanded_at(grid, goal, before, cur, c));
    assert(after.at(cur) == expanded_at(grid, goal, before, cur, cur));
    lemma_step(before.at(cur).cost, step_cost(cur, c));
    if after.at(c) == before.at(c) || c == cur {
        if c != start {
            let p = before.at(c).prev->0;
            assert(after.at(p) == expanded_at(grid, goal, before, cur, p));
        }
    }
}

/// The expansion of a listed cell keeps the records tidy.
proof fn lemma_expand_tidy(
    grid: &OccupancyGrid,
    start: Cell,
    goal: Cell,
    before: &CellMap<Field>,
    after: &CellMap<Field>,
    cur: Cell,
    bound: int,
)
    requires
        before.spec_rows() == grid.spec_rows(),
        before.spec_cols() == grid.spec_cols(),
        after.spec_rows() == grid.spec_rows(),
        after.spec_cols() == grid.spec_cols(),
        tidy(grid, start, goal, before, bound),
        grid.free(cur),
        before.at(cur).known,
        before.at(cur).cost <= bound - ROUND_COST,
        bound <= cost_limit() + ROUND_COST,
        after@ == expand(grid, goal, before@, cur),
    ensures
        tidy(grid, start, goal, after, bound),
{
    reveal(tidy);
    lemma_expand_at(grid, goal, before, after, cur);
    assert(after.at(start) == expanded_at(grid, goal, before, cur, start));
    assert forall|c: Cell| grid.has(c) && grid.blocked(c) implies #[trigger] after.at(c) == wall_field()
        || after.at(c) == untouched() by {
        assert(after.at(c) == expanded_at(grid, goal, before, cur, c));
    }
    assert forall|c: Cell| grid.has(c) && !(#[trigger] after.at(c)).known implies !after.at(c).processed by {
        assert(after.at(c) == expanded_at(grid, goal, before, cur, c));
    }
    assert forall|c: Cell| grid.has(c) && !grid.blocked(c) && (#[trigger] after.at(c)).known implies {
        &&& after.at(c).cost <= bound
        &&& c == start ==> after.at(c).prev is None && after.at(c).cost == 0
        &&& c != start ==> linked_back(grid, after, c)
    } by {
        if before.at(c).known {
            assert(tidy_cell(grid, start, before, bound, c));
        }
        lemma_expand_cell_tidy(grid, start, goal, before, after, cur, bound, c);
    }
    assert forall|c: Cell, q: Cell|
        grid.free(c) && after.at(c).processed && grid.has(q) && #[trigger] touches(
            true,
            c,
            q,
        ) implies after.at(q).known by {
        assert(after.at(c) == expanded_at(grid, goal, before, cur, c));
        assert(after.at(q) == expanded_at(grid, goal, before, cur, q));
        if c != cur {
            assert(before.at(c).processed);
        }
    }
}

/// Whatever `cells` holds that the records do not know is discovered.
proof fn lemma_discovered_complete(grid: &OccupancyGrid, nodes: Map<Cell, Field>, cells: Seq<Cell>, c: Cell)
    requires
        cells.contains(c),
        !nodes[c].known,
        !grid.blocked(c),
    ensures
        discovered(grid, nodes, cells).contains(c),
    decreases cells.len(),
{
    let found = discovered(grid, nodes, cells);
    if cells.last() == c {
        assert(found[found.len() - 1] == c);
    } else {
        let front = cells.drop_last();
        let i = choose|i: int| 0 <= i < cells.len() && cells[i] == c;
        assert(front[i] == c);
        lemma_discovered_complete(grid, nodes, front, c);
        let rest = discovered(grid, nodes, front);
        let j = choose|j: int| 0 <= j < rest.len() && rest[j] == c;
        assert(found[j] == c);
    }
}

/// Each cell picked from is picked with its estimate or without.
proof fn lemma_pick_complete(nodes: Map<Cell, Field>, cells: Seq<Cell>, m: u64, c: Cell)
    requires
        cells.contains(c),
    ensures
        pick(nodes, cells, m, nodes[c].estimate == m).contains(c),
    decreases cells.len(),
{
    let tied = nodes[c].estimate == m;
    let got = pick(nodes, cells, m, tied);
    if cells.last() == c {
        assert(got[got.len() - 1] == c);
    } else {
        let front = cells.drop_last();
        let i = choose|i: int| 0 <= i < cells.len() && cells[i] == c;
        assert(front[i] == c);
        lemma_pick_complete(nodes, front, m, c);
        let rest = pick(nodes, front, m, tied);
        let j = choose|j: int| 0 <= j < rest.len() && rest[j] == c;
        assert(got[j] == c);
    }
}

/// The expansion of a cell keeps every cell that is known and not final in
/// the lists of the round, and keeps final what was final.
proof fn lemma_expand_covers(
    grid: &OccupancyGrid,
    goal: Cell,
    before: &CellMap<Field>,
    after: &CellMap<Field>,
    cur: Cell,
    next: Seq<Cell>,
    batch: Seq<Cell>,
)
    requires
        grid.has(cur),
        before.spec_rows() == grid.spec_rows(),
        before.spec_cols() == grid.spec_cols(),
        after.spec_rows() == grid.spec_rows(),
        after.spec_cols() == grid.spec_cols(),
        after@ == expand(grid, goal, before@, cur),
    ensures
        covers(grid, before, next, batch) ==> covers(
            grid,
            after,
            next + discovered(grid, before@, grid.around(cur, true)),
            batch,
        ),
        forall|n: int| done(grid, before, batch, n) ==> #[trigger] done(grid, after, batch, n),
        after.at(cur).processed,
{
    reveal(covers);
    reveal(done);
    lemma_expand_at(grid, goal, before, after, cur);
    assert(after.at(cur) == expanded_at(grid, goal, before, cur, cur));
    let found = discovered(grid, before@, grid.around(cur, true));
    let all = next + found;
    if covers(grid, before, next, batch) {
        assert forall|c: Cell|
            grid.has(c) && (#[trigger] after.at(c)).known && !after.at(c).processed implies all.contains(c)
            || batch.contains(c) by {
            assert(after.at(c) == expanded_at(grid, goal, before, cur, c));
            if before.at(c).known {
                assert(!before.at(c).processed);
                if next.contains(c) {
                    let i = choose|i: int| 0 <= i < next.len() && next[i] == c;
                    assert(all[i] == c);
                }
            } else {
                lemma_around_touches(grid.spec_rows(), grid.spec_cols(), cur, true, c);
                assert(before@[c] == before.at(c));
                lemma_discovered_complete(grid, before@, grid.around(cur, true), c);
                let j = choose|j: int| 0 <= j < found.len() && found[j] == c;
                assert(all[next.len() + j] == c);
            }
        }
    }
    assert forall|n: int| done(grid, before, batch, n) implies #[trigger] done(grid, after, batch, n) by {
        assert forall|j: int| 0 <= j < n && j < batch.len() && grid.has(batch[j]) implies (#[trigger] after.at(
            batch[j],
        )).processed by {
            assert(before.at(batch[j]).processed);
            assert(after.at(batch[j]) == expanded_at(grid, goal, before, cur, batch[j]));
        }
    }
}

/// The expansion of a listed cell keeps the lists of the round in order.
proof fn lemma_expand_lists(
    grid: &OccupancyGrid,
    goal: Cell,
    before: &CellMap<Field>,
    after: &CellMap<Field>,
    cur: Cell,
    bound: int,
    next: Seq<Cell>,
    batch: Seq<Cell>,
)
    requires
        before.spec_rows() == grid.spec_rows(),
        before.spec_cols() == grid.spec_cols(),
        after.spec_rows() == grid.spec_rows(),
        after.spec_cols() == grid.spec_cols(),
        listed(grid, before, batch, bound),
        open_cells(grid, before, next),
        apart(next, batch),
        batch.contains(cur),
        after@ == expand(grid, goal, before@, cur),
        forall|c: Cell| grid.has(c) && !(#[trigger] before.at(c)).known ==> !before.at(c).processed,
    ensures
        listed(grid, after, batch, bound),
        open_cells(grid, after, next + discovered(grid, before@, grid.around(cur, true))),
        apart(next + discovered(grid, before@, grid.around(cur, true)), batch),
        covers(grid, before, next, batch) ==> covers(
            grid,
            after,
            next + discovered(grid, before@, grid.around(cur, true)),
            batch,
        ),
        forall|n: int| done(grid, before, batch, n) ==> #[trigger] done(grid, after, batch, n),
        after.at(cur).processed,
{
    reveal(listed);
    reveal(open_cells);
    reveal(apart);
    let ci = choose|i: int| 0 <= i < batch.len() && batch[i] == cur;
    assert(grid.free(batch[ci]));
    lemma_expand_covers(grid, goal, before, after, cur, next, batch);
    lemma_expand_at(grid, goal, before, after, cur);
    let found = discovered(grid, before@, grid.around(cur, true));
    let all = next + found;
    assert forall|i: int| 0 <= i < all.len() implies grid.has(#[trigger] all[i]) && after.at(all[i]).known
        && !after.at(all[i]).processed by {
        if i < next.len() {
            assert(all[i] == next[i]);
            assert(next[i] != batch[ci]);
            assert(after.at(next[i]) == expanded_at(grid, goal, before, cur, next[i]));
        } else {
            let q = found[i - next.len()];
            assert(all[i] == q);
            lemma_discovered_member(grid, before@, grid.around(cur, true), i - next.len());
            lemma_around_touches(grid.spec_rows(), grid.spec_cols(), cur, true, q);
            assert(before@[q] == before.at(q));
            assert(after.at(q) == expanded_at(grid, goal, before, cur, q));
        }
    }
    assert forall|i: int, j: int| 0 <= i < all.len() && 0 <= j < batch.len() implies all[i] != batch[j] by {
        if i < next.len() {
            assert(all[i] == next[i]);
        } else {
            let q = found[i - next.len()];
            assert(all[i] == q);
            lemma_discovered_member(grid, before@, grid.around(cur, true), i - next.len());
            lemma_around_touches(grid.spec_rows(), grid.spec_cols(), cur, true, q);
            assert(before@[q] == before.at(q));
            assert(before.at(batch[j]).known);
        }
    }
    assert forall|i: int| 0 <= i < batch.len() implies grid.free(#[trigger] batch[i]) && after.at(
        batch[i],
    ).known && after.at(batch[i]).cost <= bound by {
        assert(before.at(batch[i]).known);
        assert(after.at(batch[i]) == expanded_at(grid, goal, before, cur, batch[i]));
    }
}

/// The split of the open cells keeps every cell that is known and not final
/// in one of its parts.
proof fn lemma_split_covers(grid: &OccupancyGrid, fields: &CellMap<Field>, open: Seq<Cell>)
    requires
        fields.spec_rows() == grid.spec_rows(),
        fields.spec_cols() == grid.spec_cols(),
        covers(grid, fields, open, Seq::<Cell>::empty()),
    ensures
        ({
            let m = lowest(fields@, open);
            let keep = pick(fields@, open, m, false);
            let batch = pick(fields@, open, m, true);
            covers(grid, fields, keep, batch) && done(grid, fields, batch, 0)
        }),
{
    reveal(covers);
    reveal(done);
    let m = lowest(fields@, open);
    let keep = pick(fields@, open, m, false);
    let batch = pick(fields@, open, m, true);
    assert forall|c: Cell|
        grid.has(c) && (#[trigger] fields.at(c)).known && !fields.at(c).processed implies keep.contains(c)
        || batch.contains(c) by {
        assert(!Seq::<Cell>::empty().contains(c));
        lemma_pick_complete(fields@, open, m, c);
    }
}

/// When every cell of the batch is final, the cells that are known and not
/// final are in the other list.
proof fn lemma_round_covers(grid: &OccupancyGrid, fields: &CellMap<Field>, next: Seq<Cell>, batch: Seq<Cell>)
    requires
        covers(grid, fields, next, batch),
        done(grid, fields, batch, batch.len() as int),
    ensures
        covers(grid, fields, next, Seq::<Cell>::empty()),
{
    reveal(covers);
    reveal(done);
    assert forall|c: Cell|
        grid.has(c) && (#[trigger] fields.at(c)).known && !fields.at(c).processed implies next.contains(c) by {
        if batch.contains(c) {
            let j = choose|j: int| 0 <= j < batch.len() && batch[j] == c;
            assert(fields.at(batch[j]).processed);
        }
    }
}

/// One more cell of the batch is final.
proof fn lemma_done_next(grid: &OccupancyGrid, fields: &CellMap<Field>, batch: Seq<Cell>, n: int)
    requires
        done(grid, fields, batch, n),
        0 <= n < batch.len(),
        fields.at(batch[n]).processed,
    ensures
        done(grid, fields, batch, n + 1),
{
    reveal(done);
}

/// Where no cell is open and every neighbour of a final free cell is known,
/// a cell that is not known cannot be reached from the start.
proof fn lemma_closed_unreachable(
    grid: &OccupancyGrid,
    start: Cell,
    goal: Cell,
    fields: &CellMap<Field>,
    bound: int,
)
    requires
        tidy(grid, start, goal, fields, bound),
        covers(grid, fields, Seq::<Cell>::empty(), Seq::<Cell>::empty()),
        grid.free(goal),
        !fields.at(goal).known,
    ensures
        !reachable(grid, true, start, goal),
{
    if reachable(grid, true, start, goal) {
        let path = choose|path: Seq<Cell>|
            #[trigger] path_joins(path, start, goal) && path_free(grid, path) && path_linked(path, true);
        let inside = |c: Cell| grid.free(c) && fields.at(c).known;
        reveal(tidy);
        reveal(covers);
        assert(inside(path[0]));
        assert forall|c: Cell, q: Cell|
            inside(c) && grid.free(q) && #[trigger] touches(true, c, q) implies inside(q) by {
            assert(!Seq::<Cell>::empty().contains(c));
            assert(fields.at(c).processed);
        }
        lemma_closed_holds(grid, true, inside, path, path.len() - 1);
    }
}

/// What the split of the open cells at the start of a round gives.
proof fn lemma_round_split(
    grid: &OccupancyGrid,
    start: Cell,
    goal: Cell,
    fields: &CellMap<Field>,
    open: Seq<Cell>,
    bound: int,
)
    requires
        fields.spec_rows() == grid.spec_rows(),
        fields.spec_cols() == grid.spec_cols(),
        tidy(grid, start, goal, fields, bound),
        open_cells(grid, fields, open),
        covers(grid, fields, open, Seq::<Cell>::empty()),
        open.len() > 0,
    ensures
        ({
            let m = lowest(fields@, open);
            let keep = pick(fields@, open, m, false);
            let batch = pick(fields@, open, m, true);
            &&& tidy(grid, start, goal, fields, bound + ROUND_COST)
            &&& listed(grid, fields, batch, bound)
            &&& open_cells(grid, fields, keep)
            &&& open_cells(grid, fields, batch)
            &&& apart(keep, batch)
            &&& batch.len() > 0
            &&& covers(grid, fields, keep, batch)
            &&& done(grid, fields, batch, 0)
        }),
{
    lemma_split_covers(grid, fields, open);
    reveal(tidy);
    reveal(listed);
    reveal(open_cells);
    reveal(apart);
    let m = lowest(fields@, open);
    let keep = pick(fields@, open, m, false);
    let batch = pick(fields@, open, m, true);
    lemma_lowest_attained(fields@, open);
    assert forall|i: int| 0 <= i < batch.len() implies grid.free(#[trigger] batch[i]) && fields.at(
        batch[i],
    ).known && !fields.at(batch[i]).processed && fields.at(batch[i]).cost <= bound by {
        lemma_pick_member(fields@, open, m, true, i);
        let j = choose|j: int| 0 <= j < open.len() && open[j] == batch[i];
        assert(grid.has(open[j]));
    }
    assert forall|i: int| 0 <= i < keep.len() implies grid.has(#[trigger] keep[i]) && fields.at(
        keep[i],
    ).known && !fields.at(keep[i]).processed by {
        lemma_pick_member(fields@, open, m, false, i);
        let j = choose|j: int| 0 <= j < open.len() && open[j] == keep[i];
        assert(grid.has(open[j]));
    }
    assert forall|i: int, j: int| 0 <= i < keep.len() && 0 <= j < batch.len() implies keep[i] != batch[j] by {
        lemma_pick_member(fields@, open, m, false, i);
        lemma_pick_member(fields@, open, m, true, j);
    }
}

/// In tidy records a cell that is not known is not final.
proof fn lemma_tidy_unknown(grid: &OccupancyGrid, start: Cell, goal: Cell, fields: &CellMap<Field>, bound: int)
    requires
        tidy(grid, start, goal, fields, bound),
    ensures
        forall|c: Cell| grid.has(c) && !(#[trigger] fields.at(c)).known ==> !fields.at(c).processed,
{
    reveal(tidy);
}

/// A cell of a list of open cells lies on the grid and is not final.
proof fn lemma_open_cell(grid: &OccupancyGrid, fields: &CellMap<Field>, cells: Seq<Cell>, i: int)
    requires
        open_cells(grid, fields, cells),
        0 <= i < cells.len(),
    ensures
        grid.has(cells[i]),
        fields.at(cells[i]).known,
        !fields.at(cells[i]).processed,
{
    reveal(open_cells);
}

/// A listed cell is a known free cell within the bound.
proof fn lemma_listed_cell(grid: &OccupancyGrid, fields: &CellMap<Field>, cells: Seq<Cell>, bound: int, i: int)
    requires
        listed(grid, fields, cells, bound),
        0 <= i < cells.len(),
    ensures
        grid.free(cells[i]),
        fields.at(cells[i]).known,
        fields.at(cells[i]).cost <= bound,
{
    reveal(listed);
}

/// The way back from a known free cell leads from the start to it over free
/// cells, each touching the next.
proof fn lemma_trail_sound(
    grid: &OccupancyGrid,
    start: Cell,
    goal: Cell,
    fields: &CellMap<Field>,
    bound: int,
    c: Cell,
)
    requires
        fields.spec_rows() == grid.spec_rows(),
        fields.spec_cols() == grid.spec_cols(),
        tidy(grid, start, goal, fields, bound),
        bound <= cost_limit(),
        grid.free(c),
        fields.at(c).known,
    ensures
        path_free(grid, trail(fields@, c)),
        path_joins(trail(fields@, c), start, c),
        path_linked(trail(fields@, c), true),
    decreases fields.at(c).cost,
{
    reveal(tidy);
    assert(fields@[c] == fields.at(c));
    if c == start {
        assert(trail(fields@, c) =~= seq![c]);
    } else {
        assert(linked_back(grid, fields, c));
        let p = fields.at(c).prev->0;
        assert(fields@[p] == fields.at(p));
        assert(fields.at(p).cost <= bound);
        lemma_step(fields.at(p).cost, step_cost(p, c));
        lemma_trail_sound(grid, start, goal, fields, bound, p);
        let front = trail(fields@, p);
        assert(trail(fields@, c) == front.push(c));
        lemma_path_append(grid, front, c, start, true);
    }
}

/// The records of a grid on which nothing is reached yet.
fn blank_fields(grid: &OccupancyGrid) -> (fields: CellMap<Field>)
    ensures
        fields@ == blank(grid),
        fields.spec_rows() == grid.spec_rows(),
        fields.spec_cols() == grid.spec_cols(),
        fields.area() == grid.area(),
{
    let fields: CellMap<Field> = grid.layer(
        Field { known: false, processed: false, prev: None, cost: 0, estimate: 0, dist: 0 },
    );
    proof {
        assert(fields@ =~= blank(grid));
    }
    fields
}

/// The lowest estimate among the open cells.
fn lowest_estimate(fields: &CellMap<Field>, open: &Vec<Cell>) -> (m: u64)
    requires
        forall|i: int| 0 <= i < open.len() ==> fields.has(#[trigger] open[i]),
    ensures
        m == lowest(fields@, open@),
{
    let mut m: u64 = WALL;
    let mut i: usize = 0;
    proof {
        assert(open@.take(0) =~= Seq::<Cell>::empty());
    }
    while i < open.len()
        invariant
            i <= open.len(),
            forall|j: int| 0 <= j < open.len() ==> fields.has(#[trigger] open[j]),
            m == lowest(fields@, open@.take(i as int)),
        decreases open.len() - i,
    {
        let e = fields.get(open[i]).estimate;
        proof {
            assert(open@.take(i + 1).drop_last() =~= open@.take(i as int));
            assert(open@.take(i + 1).last() == open[i as int]);
            assert(fields@[open[i as int]] == fields.at(open[i as int]));
        }
        if e < m {
            m = e;
        }
        i += 1;
    }
    proof {
        assert(open@.take(open.len() as int) =~= open@);
    }
    m
}

/// Splits the open cells into those whose estimate is not `m`, and those
/// whose estimate is.
fn split(fields: &CellMap<Field>, open: &Vec<Cell>, m: u64) -> (parts: (Vec<Cell>, Vec<Cell>))
    requires
        forall|i: int| 0 <= i < open.len() ==> fields.has(#[trigger] open[i]),
    ensures
        parts.0@ == pick(fields@, open@, m, false),
        parts.1@ == pick(fields@, open@, m, true),
{
    let mut keep: Vec<Cell> = Vec::new();
    let mut batch: Vec<Cell> = Vec::new();
    let mut i: usize = 0;
    proof {
        assert(open@.take(0) =~= Seq::<Cell>::empty());
    }
    while i < open.len()
        invariant
            i <= open.len(),
            forall|j: int| 0 <= j < open.len() ==> fields.has(#[trigger] open[j]),
            keep@ == pick(fields@, open@.take(i as int), m, false),
            batch@ == pick(fields@, open@.take(i as int), m, true),
        decreases open.len() - i,
    {
        let c = open[i];
        let e = fields.get(c).estimate;
        proof {
            assert(open@.take(i + 1).drop_last() =~= open@.take(i as int));
            assert(open@.take(i + 1).last() == open[i as int]);
            assert(fields@[open[i as int]] == fields.at(open[i as int]));
        }
        if e == m {
            batch.push(c);
        } else {
            keep.push(c);
        }
        i += 1;
    }
    proof {
        assert(open@.take(open.len() as int) =~= open@);
    }
    (keep, batch)
}

/// The records with which a search starts are tidy, and the start is open.
proof fn lemma_search_start(grid: &OccupancyGrid, start: Cell, goal: Cell, fields: &CellMap<Field>)
    requires
        grid.free(start),
        grid.free(goal),
        fields.spec_rows() == grid.spec_rows(),
        fields.spec_cols() == grid.spec_cols(),
        grid.spec_rows() + grid.spec_cols() <= MAX_CELLS + 1,
        fields@ == blank(grid).insert(start, start_field(start, goal)),
    ensures
        tidy(grid, start, goal, fields, 0),
        open_cells(grid, fields, seq![start]),
        covers(grid, fields, seq![start], Seq::<Cell>::empty()),
        forall|c: Cell| grid.has(c) ==> #[trigger] fields.at(c).dist <= MAX_CELLS + 1,
{
    reveal(tidy);
    reveal(open_cells);
    reveal(covers);
    assert forall|c: Cell| grid.has(c) implies #[trigger] fields.at(c) == (if c == start {
        start_field(start, goal)
    } else {
        untouched()
    }) by {
        assert(fields@[c] == fields.at(c));
    }
    assert(seq![start][0] == start);
}

/// Best-first search from `start` to `end` over orthogonal and diagonal
/// steps.
///
/// Each round takes the lowest estimate among the open cells and expands
/// every open cell that holds it, in the order in which the cells were
/// reached. The search stops as soon as the goal is reached, or when no cell
/// is open.
pub fn calculate(grid: &OccupancyGrid, start: Cell, end: Cell) -> (res: SearchResult)
    ensures
        search_result(grid, start, end, &res),
        search_sound(grid, start, end, &res),
{
    let goal = end;
    let mut fields = blank_fields(grid);
    if grid.is_blocked(start) || grid.is_blocked(goal) {
        return SearchResult { outcome: Outcome::InvalidInput, path: Vec::new(), fields, rounds: 0 };
    }
    proof {
        use_type_invariant(grid);
        grid.lemma_area();
    }
    let far = distance(start, goal);
    fields.set(
        start,
        Field {
            known: true,
            processed: false,
            prev: None,
            cost: 0,
            estimate: COST_SCALE * (far as u64),
            dist: far,
        },
    );
    let mut open: Vec<Cell> = Vec::new();
    open.push(start);
    let mut rounds: usize = 0;
    proof {
        assert(fields@ =~= blank(grid).insert(start, start_field(start, goal)));
        assert(open@ =~= seq![start]);
        lemma_search_start(grid, start, goal, &fields);
        fields.lemma_count_bound(unprocessed());
    }
    loop
        invariant
            grid.free(start),
            grid.free(goal),
            fields.spec_rows() == grid.spec_rows(),
            fields.spec_cols() == grid.spec_cols(),
            grid.spec_rows() + grid.spec_cols() <= MAX_CELLS + 1,
            tidy(grid, start, goal, &fields, ROUND_COST * rounds),
            open_cells(grid, &fields, open@),
            covers(grid, &fields, open@, Seq::<Cell>::empty()),
            fields@ == search(grid, start, goal, rounds as nat).nodes,
            open@ == search(grid, start, goal, rounds as nat).open,
            forall|m: nat| m < rounds ==> !stopped(#[trigger] search(grid, start, goal, m), goal),
            rounds + fields.count(unprocessed()) <= fields.area(),
            fields.area() <= MAX_CELLS,
            forall|c: Cell| grid.has(c) ==> #[trigger] fields.at(c).dist <= MAX_CELLS + 1,
        ensures
            stopped(search(grid, start, goal, rounds as nat), goal),
            !fields.at(goal).known ==> open.len() == 0,
        decreases fields.count(unprocessed()),
    {
        let at_goal = fields.get(goal);
        assert(fields@[goal] == at_goal);
        if at_goal.known {
            break ;
        }
        if open.len() == 0 {
            break ;
        }
        proof {
            assert forall|i: int| 0 <= i < open.len() implies fields.has(#[trigger] open[i]) by {
                lemma_open_cell(grid, &fields, open@, i);
            }
        }
        let m = lowest_estimate(&fields, &open);
        let (keep, batch) = split(&fields, &open, m);
        let ghost snap = fields;
        let ghost kept = keep@;
        let mut next = keep;
        let mut i: usize = 0;
        proof {
            lemma_round_split(grid, start, goal, &fields, open@, ROUND_COST * rounds);
            lemma_open_cell(grid, &fields, batch@, 0);
            use_type_invariant(&fields);
            fields.lemma_count_positive(batch[0], unprocessed());
            assert(batch@.take(0) =~= Seq::<Cell>::empty());
        }
        while i < batch.len()
            invariant
                i <= batch.len(),
                batch.len() > 0,
                grid.free(start),
                grid.free(goal),
                fields.spec_rows() == grid.spec_rows(),
                fields.spec_cols() == grid.spec_cols(),
                snap.spec_rows() == grid.spec_rows(),
                snap.spec_cols() == grid.spec_cols(),
                fields.area() == snap.area(),
                grid.spec_rows() + grid.spec_cols() <= MAX_CELLS + 1,
                rounds < MAX_CELLS,
                tidy(grid, start, goal, &fields, ROUND_COST * rounds + ROUND_COST),
                listed(grid, &fields, batch@, ROUND_COST * rounds),
                open_cells(grid, &fields, next@),
                apart(next@, batch@),
                covers(grid, &fields, next@, batch@),
                done(grid, &fields, batch@, i as int),
                i == 0 ==> open_cells(grid, &fields, batch@) && fields.count(unprocessed()) <= snap.count(
                    unprocessed(),
                ),
                i > 0 ==> fields.count(unprocessed()) < snap.count(unprocessed()),
                fields@ == expand_all(
                    grid,
                    goal,
                    SearchState { nodes: snap@, open: kept },
                    batch@.take(i as int),
                ).nodes,
                next@ == expand_all(
                    grid,
                    goal,
                    SearchState { nodes: snap@, open: kept },
                    batch@.take(i as int),
                ).open,
                forall|c: Cell| grid.has(c) ==> #[trigger] fields.at(c).dist <= MAX_CELLS + 1,
            decreases batch.len() - i,
        {
            let cur = batch[i];
            let ghost mid = fields;
            let ghost listed_before = next@;
            proof {
                lemma_listed_cell(grid, &fields, batch@, ROUND_COST * rounds, i as int);
                if i == 0 {
                    lemma_open_cell(grid, &fields, batch@, 0);
                }
            }
            expand_cell(grid, goal, &mut fields, cur, &mut next);
            proof {
                assert(batch@.contains(cur));
                lemma_tidy_unknown(grid, start, goal, &mid, ROUND_COST * rounds + ROUND_COST);
                lemma_expand_tidy(
                    grid,
                    start,
                    goal,
                    &mid,
                    &fields,
                    cur,
                    ROUND_COST * rounds + ROUND_COST,
                );
                lemma_expand_lists(
                    grid,
                    goal,
                    &mid,
                    &fields,
                    cur,
                    ROUND_COST * rounds,
                    listed_before,
                    batch@,
                );
                assert(batch@.take(i + 1).drop_last() =~= batch@.take(i as int));
                assert(batch@.take(i + 1).last() == cur);
                assert(done(grid, &fields, batch@, i as int));
                lemma_done_next(grid, &fields, batch@, i as int);
            }
            i += 1;
        }
        proof {
            lemma_round_covers(grid, &fields, next@, batch@);
        }
        proof {
            assert(batch@.take(batch.len() as int) =~= batch@);
            assert(search(grid, start, goal, (rounds + 1) as nat) == round(
                grid,
                goal,
                search(grid, start, goal, rounds as nat),
            ));
        }
        open = next;
        rounds = rounds + 1;
    }
    let at_goal = fields.get(goal);
    assert(fields@[goal] == at_goal);
    if at_goal.known {
        let path = find_path(goal, &fields);
        proof {
            lemma_trail_sound(grid, start, goal, &fields, ROUND_COST * rounds, goal);
        }
        SearchResult { outcome: Outcome::Found, path, fields, rounds }
    } else {
        proof {
            assert(open@ =~= Seq::<Cell>::empty());
            lemma_closed_unreachable(grid, start, goal, &fields, ROUND_COST * rounds);
        }
        SearchResult { outcome: Outcome::Unreachable, path: Vec::new(), fields, rounds }
    }
}

/// The expansion of a batch never raises the cost of a known cell, and
/// never forgets one.
pub proof fn lemma_expand_all_costs(
    grid: &OccupancyGrid,
    goal: Cell,
    st: SearchState,
    batch: Seq<Cell>,
    c: Cell,
)
    requires
        grid.has(c),
        st.nodes[c].known,
    ensures
        expand_all(grid, goal, st, batch).nodes[c].known,
        expand_all(grid, goal, st, batch).nodes[c].cost <= st.nodes[c].cost,
    decreases batch.len(),
{
    if batch.len() > 0 {
        lemma_expand_all_costs(grid, goal, st, batch.drop_last(), c);
        lemma_expand_costs(
            grid,
            goal,
            expand_all(grid, goal, st, batch.drop_last()).nodes,
            batch.last(),
            c,
        );
    }
}

/// Across the relaxations of a search the cost of a cell never rises: a cell
/// that is known after `n` rounds is known after every later round, with the
/// same cost or a lower one.
pub proof fn lemma_costs_never_rise(
    grid: &OccupancyGrid,
    start: Cell,
    goal: Cell,
    n: nat,
    m: nat,
    c: Cell,
)
    requires
        n <= m,
        grid.has(c),
        search(grid, start, goal, n).nodes[c].known,
    ensures
        search(grid, start, goal, m).nodes[c].known,
        search(grid, start, goal, m).nodes[c].cost <= search(grid, start, goal, n).nodes[c].cost,
    decreases m - n,
{
    if n < m {
        lemma_costs_never_rise(grid, start, goal, n, (m - 1) as nat, c);
        let st = search(grid, start, goal, (m - 1) as nat);
        let low = lowest(st.nodes, st.open);
        lemma_expand_all_costs(
            grid,
            goal,
            SearchState { nodes: st.nodes, open: pick(st.nodes, st.open, low, false) },
            pick(st.nodes, st.open, low, true),
            c,
        );
    }
}

/// The number of rounds of a search is fixed by the grid, the start and the
/// goal.
pub proof fn lemma_search_rounds_unique(grid: &OccupancyGrid, start: Cell, goal: Cell, a: nat, b: nat)
    requires
        search_rounds(grid, start, goal, a),
        search_rounds(grid, start, goal, b),
    ensures
        a == b,
{
    if a < b {
        assert(!stopped(search(grid, start, goal, a), goal));
    }
    if b < a {
        assert(!stopped(search(grid, start, goal, b), goal));
    }
}

/// A search is a function of its input: whatever two runs on the same grid,
/// start and goal return, they report the same outcome, the same records and
/// the same path.
pub proof fn lemma_search_determined(
    grid: &OccupancyGrid,
    start: Cell,
    goal: Cell,
    a: &SearchResult,
    b: &SearchResult,
)
    requires
        search_result(grid, start, goal, a),
        search_result(grid, start, goal, b),
    ensures
        a.outcome == b.outcome,
        a.rounds == b.rounds,
        a.fields@ == b.fields@,
        a.path@ == b.path@,
{
    if grid.free(start) && grid.free(goal) {
        lemma_search_rounds_unique(grid, start, goal, a.rounds as nat, b.rounds as nat);
    }
}

/// Where start and goal are the same free cell, the search finds the path
/// that holds this cell alone, without a round.
pub proof fn lemma_start_is_goal(grid: &OccupancyGrid, cell: Cell, res: &SearchResult)
    requires
        grid.free(cell),
        search_result(grid, cell, cell, res),
    ensures
        res.outcome == Outcome::Found,
        res.rounds == 0,
        res.path@ == seq![cell],
{
    let first = search(grid, cell, cell, 0);
    assert(first.nodes[cell] == start_field(cell, cell));
    assert(stopped(first, cell));
    if res.rounds > 0 {
        assert(!stopped(search(grid, cell, cell, 0), cell));
    }
}

/// The label that stands for a record: 0 for a cell not reached, else the
/// estimate in whole orthogonal steps.
pub open spec fn label_of(f: Field) -> u64 {
    if !f.known {
        0
    } else {
        f.estimate / COST_SCALE
    }
}

/// The labels that stand for the records of a search: `WALL` on the
/// obstacles of the grid, elsewhere the label of the record.
pub fn labels(grid: &OccupancyGrid, fields: &CellMap<Field>) -> (out: CellMap<u64>)
    requires
        fields.spec_rows() == grid.spec_rows(),
        fields.spec_cols() == grid.spec_cols(),
    ensures
        out.spec_rows() == grid.spec_rows(),
        out.spec_cols() == grid.spec_cols(),
        forall|c: Cell|
            grid.has(c) ==> #[trigger] out.at(c) == (if grid.blocked(c) {
                WALL
            } else {
                label_of(fields.at(c))
            }),
{
    let rows = fields.rows();
    let cols = fields.cols();
    let mut out: CellMap<u64> = fields.same_shape(0u64);
    let mut col: usize = 0;
    while col < cols
        invariant
            col <= cols,
            rows == grid.spec_rows(),
            cols == grid.spec_cols(),
            fields.spec_rows() == rows,
            fields.spec_cols() == cols,
            out.spec_rows() == rows,
            out.spec_cols() == cols,
            forall|c: Cell|
                grid.has(c) && c.1 < col ==> #[trigger] out.at(c) == (if grid.blocked(c) {
                    WALL
                } else {
                    label_of(fields.at(c))
                }),
        decreases cols - col,
    {
        let mut row: usize = 0;
        while row < rows
            invariant
                row <= rows,
                col < cols,
                rows == grid.spec_rows(),
                cols == grid.spec_cols(),
                fields.spec_rows() == rows,
                fields.spec_cols() == cols,
                out.spec_rows() == rows,
                out.spec_cols() == cols,
                forall|c: Cell|
                    grid.has(c) && (c.1 < col || (c.1 == col && c.0 < row)) ==> #[trigger] out.at(c) == (
                    if grid.blocked(c) {
                        WALL
                    } else {
                        label_of(fields.at(c))
                    }),
            decreases rows - row,
        {
            let f = fields.get((row, col));
            let label: u64 = if grid.is_blocked((row, col)) {
                WALL
            } else if !f.known {
                0
            } else {
                f.estimate / COST_SCALE
            };
            out.set((row, col), label);
            row += 1;
        }
        col += 1;
    }
    out
}

} // verus!
