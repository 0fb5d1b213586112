//! Line of sight: the straight connection between two cells, rasterized with
//! an integer midpoint rule, and the test that no obstacle lies on it.

use crate::grid::{gap, touches, Cell, OccupancyGrid};
use vstd::prelude::*;

verus! {

/// The error term with which the rasterization of a line over `dx` columns
/// and `dy` rows starts: half the longer extent, negative where the line is
/// at least as tall as wide.
pub open spec fn start_error(dx: int, dy: int) -> int {
    if dx > dy {
        dx / 2
    } else {
        -(dy / 2)
    }
}

/// The cell of the line from `p1` to `p2` that has `rx` steps left to go in
/// the first coordinate and `ry` in the second.
pub open spec fn line_point(p1: Cell, p2: Cell, rx: int, ry: int) -> Cell {
    (
        (if p1.0 <= p2.0 {
            p2.0 - rx
        } else {
            p2.0 + rx
        }) as usize,
        (if p1.1 <= p2.1 {
            p2.1 - ry
        } else {
            p2.1 + ry
        }) as usize,
    )
}

/// The cells of the line from `p1` to `p2` from the state `(err, rx, ry)` on.
///
/// With `e = 2 * err`, the walk steps in the first coordinate where
/// `e > -dx` and in the second where `e < dy`; a step in the first lowers
/// `err` by `dy`, one in the second raises it by `dx`.
pub open spec fn line_from(p1: Cell, p2: Cell, err: int, rx: nat, ry: nat) -> Seq<Cell>
    decreases rx + ry,
{
    let here = line_point(p1, p2, rx as int, ry as int);
    let dx = gap(p1.0, p2.0);
    let dy = gap(p1.1, p2.1);
    let step_x = rx > 0 && 2 * err > -dx;
    let step_y = ry > 0 && 2 * err < dy;
    if !step_x && !step_y {
        seq![here]
    } else {
        let err_x = if step_x {
            err - dy
        } else {
            err
        };
        let err_y = if step_y {
            err_x + dx
        } else {
            err_x
        };
        seq![here] + line_from(
            p1,
            p2,
            err_y,
            if step_x {
                (rx - 1) as nat
            } else {
                rx
            },
            if step_y {
                (ry - 1) as nat
            } else {
                ry
            },
        )
    }
}

/// The cells that the straight line from `p1` to `p2` traverses, both ends
/// included.
pub open spec fn line_cells(p1: Cell, p2: Cell) -> Seq<Cell> {
    let dx = gap(p1.0, p2.0);
    let dy = gap(p1.1, p2.1);
    line_from(p1, p2, start_error(dx, dy), dx as nat, dy as nat)
}

/// Whether the line from `p1` to `p2` is free of obstacles: every cell it
/// traverses is a free cell of the grid. A line from a cell to itself counts
/// as clear.
pub open spec fn clear_line(grid: &OccupancyGrid, p1: Cell, p2: Cell) -> bool {
    p1 == p2 || forall|i: int|
        0 <= i < line_cells(p1, p2).len() ==> grid.free(#[trigger] line_cells(p1, p2)[i])
}

/// What holds of the error term in every state that the walk reaches.
spec fn walk_state(dx: int, dy: int, err: int, rx: int, ry: int, a: int, b: int) -> bool {
    &&& 0 <= rx <= dx
    &&& 0 <= ry <= dy
    &&& a == rx * dy
    &&& b == ry * dx
    &&& err == start_error(dx, dy) + a - b
    &&& -(dx + dy) <= err <= dx + dy
}

/// While a coordinate has steps left, the midpoint rule never asks for a step
/// in the other one that is already done, and always asks for some step.
proof fn lemma_walk_state(dx: int, dy: int, err: int, rx: int, ry: int, a: int, b: int)
    requires
        walk_state(dx, dy, err, rx, ry, a, b),
        rx > 0 || ry > 0,
    ensures
        rx == 0 ==> 2 * err <= -dx,
        ry == 0 ==> 2 * err >= dy,
        2 * err > -dx || 2 * err < dy,
{
    if rx == 0 {
        assert(a == 0) by (nonlinear_arith)
            requires
                a == rx * dy,
                rx == 0,
        ;
        assert(b >= dx) by (nonlinear_arith)
            requires
                b == ry * dx,
                ry >= 1,
                dx >= 0,
        ;
    }
    if ry == 0 {
        assert(b == 0) by (nonlinear_arith)
            requires
                b == ry * dx,
                ry == 0,
        ;
        assert(a >= dy) by (nonlinear_arith)
            requires
                a == rx * dy,
                rx >= 1,
                dy >= 0,
        ;
    }
}

/// Whether no obstacle lies on the straight line from `p1` to `p2`.
///
/// The cells between the two are visited in the order of the line and the
/// answer is `false` at the first that is blocked or off the grid; a line from
/// a cell to itself is clear without a look at the grid.
pub fn line_of_sight(grid: &OccupancyGrid, p1: Cell, p2: Cell) -> (clear: bool)
    ensures
        clear == clear_line(grid, p1, p2),
{
    if p1.0 == p2.0 && p1.1 == p2.1 {
        return true;
    }
    let dx: usize = if p1.0 <= p2.0 {
        p2.0 - p1.0
    } else {
        p1.0 - p2.0
    };
    let dy: usize = if p1.1 <= p2.1 {
        p2.1 - p1.1
    } else {
        p1.1 - p2.1
    };
    let mut err: i128 = if dx > dy {
        (dx / 2) as i128
    } else {
        -((dy / 2) as i128)
    };
    let mut x: usize = p1.0;
    let mut y: usize = p1.1;
    let mut rx: usize = dx;
    let mut ry: usize = dy;
    let ghost line = line_cells(p1, p2);
    let ghost mut done: Seq<Cell> = Seq::empty();
    let ghost mut a: int = dx * dy;
    let ghost mut b: int = dy * dx;
    proof {
        assert(dx * dy == dy * dx) by (nonlinear_arith);
        assert(done + line_from(p1, p2, err as int, rx as nat, ry as nat) =~= line);
    }
    loop
        invariant
            p1 != p2,
            dx == gap(p1.0, p2.0),
            dy == gap(p1.1, p2.1),
            line == line_cells(p1, p2),
            walk_state(dx as int, dy as int, err as int, rx as int, ry as int, a, b),
            (x, y) == line_point(p1, p2, rx as int, ry as int),
            line == done + line_from(p1, p2, err as int, rx as nat, ry as nat),
            forall|i: int| 0 <= i < done.len() ==> grid.free(#[trigger] done[i]),
        decreases rx + ry,
    {
        let ghost rest = line_from(p1, p2, err as int, rx as nat, ry as nat);
        assert(rest[0] == (x, y));
        assert(line[done.len() as int] == (x, y));
        if grid.is_blocked((x, y)) {
            return false;
        }
        if rx == 0 && ry == 0 {
            proof {
                assert(rest =~= seq![(x, y)]);
                assert forall|i: int| 0 <= i < line.len() implies grid.free(#[trigger] line[i]) by {
                    if i < done.len() {
                        assert(line[i] == done[i]);
                    }
                }
            }
            return true;
        }
        proof {
            lemma_walk_state(dx as int, dy as int, err as int, rx as int, ry as int, a, b);
        }
        let e2: i128 = 2 * err;
        let ghost before = err as int;
        let ghost rx0 = rx;
        let ghost ry0 = ry;
        if e2 > -(dx as i128) {
            err = err - dy as i128;
            x = if p1.0 <= p2.0 {
                x + 1
            } else {
                x - 1
            };
            proof {
                assert((rx - 1) * dy == rx * dy - dy) by (nonlinear_arith);
                a = a - dy;
            }
            rx = rx - 1;
        }
        if e2 < dy as i128 {
            err = err + dx as i128;
            y = if p1.1 <= p2.1 {
                y + 1
            } else {
                y - 1
            };
            proof {
                assert((ry - 1) * dx == ry * dx - dx) by (nonlinear_arith);
                b = b - dx;
            }
            ry = ry - 1;
        }
        proof {
            let next = line_from(p1, p2, err as int, rx as nat, ry as nat);
            assert(rest =~= seq![line_point(p1, p2, rx0 as int, ry0 as int)] + next);
            assert(done.push(line_point(p1, p2, rx0 as int, ry0 as int)) + next =~= done + rest);
            done = done.push(line_point(p1, p2, rx0 as int, ry0 as int));
        }
    }
}

/// The cells that the straight line from `p1` to `p2` traverses, in order,
/// both ends included.
pub fn rasterize(p1: Cell, p2: Cell) -> (cells: Vec<Cell>)
    ensures
        cells@ == line_cells(p1, p2),
{
    let dx: usize = if p1.0 <= p2.0 {
        p2.0 - p1.0
    } else {
        p1.0 - p2.0
    };
    let dy: usize = if p1.1 <= p2.1 {
        p2.1 - p1.1
    } else {
        p1.1 - p2.1
    };
    let mut err: i128 = if dx > dy {
        (dx / 2) as i128
    } else {
        -((dy / 2) as i128)
    };
    let mut x: usize = p1.0;
    let mut y: usize = p1.1;
    let mut rx: usize = dx;
    let mut ry: usize = dy;
    let mut cells: Vec<Cell> = Vec::new();
    let ghost line = line_cells(p1, p2);
    let ghost mut a: int = dx * dy;
    let ghost mut b: int = dy * dx;
    proof {
        assert(dx * dy == dy * dx) by (nonlinear_arith);
        assert(cells@ + line_from(p1, p2, err as int, rx as nat, ry as nat) =~= line);
    }
    loop
        invariant_except_break
            line == cells@ + line_from(p1, p2, err as int, rx as nat, ry as nat),
        invariant
            dx == gap(p1.0, p2.0),
            dy == gap(p1.1, p2.1),
            line == line_cells(p1, p2),
            walk_state(dx as int, dy as int, err as int, rx as int, ry as int, a, b),
            (x, y) == line_point(p1, p2, rx as int, ry as int),
        ensures
            cells@ == line,
        decreases rx + ry,
    {
        let ghost rest = line_from(p1, p2, err as int, rx as nat, ry as nat);
        let ghost before = cells@;
        cells.push((x, y));
        if rx == 0 && ry == 0 {
            proof {
                assert(rest =~= seq![(x, y)]);
                assert(before + rest =~= cells@);
            }
            break ;
        }
        proof {
            lemma_walk_state(dx as int, dy as int, err as int, rx as int, ry as int, a, b);
        }
        let e2: i128 = 2 * err;
        if e2 > -(dx as i128) {
            err = err - dy as i128;
            x = if p1.0 <= p2.0 {
                x + 1
            } else {
                x - 1
            };
            proof {
                assert((rx - 1) * dy == rx * dy - dy) by (nonlinear_arith);
                a = a - dy;
            }
            rx = rx - 1;
        }
        if e2 < dy as i128 {
            err = err + dx as i128;
            y = if p1.1 <= p2.1 {
                y + 1
            } else {
                y - 1
            };
            proof {
                assert((ry - 1) * dx == ry * dx - dx) by (nonlinear_arith);
                b = b - dx;
            }
            ry = ry - 1;
        }
        proof {
            let next = line_from(p1, p2, err as int, rx as nat, ry as nat);
            assert(rest =~= seq![cells@[cells@.len() - 1]] + next);
            assert(cells@ + next =~= before + rest);
        }
    }
    cells
}

/// From every state that the walk reaches, the line goes on from the cell
/// of that state and ends at `p2`.
proof fn lemma_line_from_ends(p1: Cell, p2: Cell, err: int, rx: nat, ry: nat, a: int, b: int)
    requires
        walk_state(gap(p1.0, p2.0), gap(p1.1, p2.1), err, rx as int, ry as int, a, b),
    ensures
        line_from(p1, p2, err, rx, ry).len() >= 1,
        line_from(p1, p2, err, rx, ry)[0] == line_point(p1, p2, rx as int, ry as int),
        line_from(p1, p2, err, rx, ry).last() == p2,
    decreases rx + ry,
{
    let dx = gap(p1.0, p2.0);
    let dy = gap(p1.1, p2.1);
    if rx > 0 || ry > 0 {
        lemma_walk_state(dx, dy, err, rx as int, ry as int, a, b);
        let step_x = rx > 0 && 2 * err > -dx;
        let step_y = ry > 0 && 2 * err < dy;
        let err_x = if step_x {
            err - dy
        } else {
            err
        };
        let err_y = if step_y {
            err_x + dx
        } else {
            err_x
        };
        let rx1 = if step_x {
            (rx - 1) as nat
        } else {
            rx
        };
        let ry1 = if step_y {
            (ry - 1) as nat
        } else {
            ry
        };
        let a1 = if step_x {
            a - dy
        } else {
            a
        };
        let b1 = if step_y {
            b - dx
        } else {
            b
        };
        if step_x {
            assert((rx - 1) * dy == rx * dy - dy) by (nonlinear_arith);
        }
        if step_y {
            assert((ry - 1) * dx == ry * dx - dx) by (nonlinear_arith);
        }
        lemma_line_from_ends(p1, p2, err_y, rx1, ry1, a1, b1);
        let rest = line_from(p1, p2, err_y, rx1, ry1);
        let here = line_point(p1, p2, rx as int, ry as int);
        assert(line_from(p1, p2, err, rx, ry) == seq![here] + rest);
        assert((seq![here] + rest).last() == rest.last());
    }
}

/// Whether `c` lies in the rectangle that `p1` and `p2` span.
pub open spec fn between(p1: Cell, p2: Cell, c: Cell) -> bool {
    &&& (p1.0 <= c.0 <= p2.0 || p2.0 <= c.0 <= p1.0)
    &&& (p1.1 <= c.1 <= p2.1 || p2.1 <= c.1 <= p1.1)
}

/// From every state that the walk reaches, the line goes on in steps to a
/// touching cell and stays in the rectangle that its ends span.
proof fn lemma_line_from_steps(p1: Cell, p2: Cell, err: int, rx: nat, ry: nat, a: int, b: int)
    requires
        walk_state(gap(p1.0, p2.0), gap(p1.1, p2.1), err, rx as int, ry as int, a, b),
    ensures
        forall|i: int|
            0 <= i < line_from(p1, p2, err, rx, ry).len() - 1 ==> touches(
                true,
                #[trigger] line_from(p1, p2, err, rx, ry)[i],
                line_from(p1, p2, err, rx, ry)[i + 1],
            ),
        forall|i: int|
            0 <= i < line_from(p1, p2, err, rx, ry).len() ==> between(
                p1,
                p2,
                #[trigger] line_from(p1, p2, err, rx, ry)[i],
            ),
    decreases rx + ry,
{
    let dx = gap(p1.0, p2.0);
    let dy = gap(p1.1, p2.1);
    let line = line_from(p1, p2, err, rx, ry);
    let here = line_point(p1, p2, rx as int, ry as int);
    lemma_line_from_ends(p1, p2, err, rx, ry, a, b);
    if rx > 0 || ry > 0 {
        lemma_walk_state(dx, dy, err, rx as int, ry as int, a, b);
        let step_x = rx > 0 && 2 * err > -dx;
        let step_y = ry > 0 && 2 * err < dy;
        let err_x = if step_x {
            err - dy
        } else {
            err
        };
        let err_y = if step_y {
            err_x + dx
        } else {
            err_x
        };
        let rx1 = if step_x {
            (rx - 1) as nat
        } else {
            rx
        };
        let ry1 = if step_y {
            (ry - 1) as nat
        } else {
            ry
        };
        let a1 = if step_x {
            a - dy
        } else {
            a
        };
        let b1 = if step_y {
            b - dx
        } else {
            b
        };
        if step_x {
            assert((rx - 1) * dy == rx * dy - dy) by (nonlinear_arith);
        }
        if step_y {
            assert((ry - 1) * dx == ry * dx - dx) by (nonlinear_arith);
        }
        lemma_line_from_steps(p1, p2, err_y, rx1, ry1, a1, b1);
        lemma_line_from_ends(p1, p2, err_y, rx1, ry1, a1, b1);
        let rest = line_from(p1, p2, err_y, rx1, ry1);
        assert(line == seq![here] + rest);
        assert forall|i: int| 0 <= i < line.len() - 1 implies touches(true, #[trigger] line[i], line[i + 1]) by {
            assert(line[i + 1] == rest[i]);
            if i > 0 {
                assert(line[i] == rest[i - 1]);
            }
        }
        assert forall|i: int| 0 <= i < line.len() implies between(p1, p2, #[trigger] line[i]) by {
            if i > 0 {
                assert(line[i] == rest[i - 1]);
            }
        }
    } else {
        assert(line =~= seq![here]);
    }
}

/// The line from `p1` to `p2` goes in steps to a touching cell and stays in
/// the rectangle that `p1` and `p2` span.
pub proof fn lemma_line_steps(p1: Cell, p2: Cell)
    ensures
        forall|i: int|
            0 <= i < line_cells(p1, p2).len() - 1 ==> touches(
                true,
                #[trigger] line_cells(p1, p2)[i],
                line_cells(p1, p2)[i + 1],
            ),
        forall|i: int|
            0 <= i < line_cells(p1, p2).len() ==> between(p1, p2, #[trigger] line_cells(p1, p2)[i]),
{
    let dx = gap(p1.0, p2.0);
    let dy = gap(p1.1, p2.1);
    assert(dx * dy == dy * dx) by (nonlinear_arith);
    lemma_line_from_steps(p1, p2, start_error(dx, dy), dx as nat, dy as nat, dx * dy, dy * dx);
}

/// The line from `p1` to `p2` starts at `p1` and ends at `p2`.
pub proof fn lemma_line_ends(p1: Cell, p2: Cell)
    ensures
        line_cells(p1, p2).len() >= 1,
        line_cells(p1, p2)[0] == p1,
        line_cells(p1, p2).last() == p2,
{
    let dx = gap(p1.0, p2.0);
    let dy = gap(p1.1, p2.1);
    assert(dx * dy == dy * dx) by (nonlinear_arith);
    lemma_line_from_ends(p1, p2, start_error(dx, dy), dx as nat, dy as nat, dx * dy, dy * dx);
}

/// A clear line from a free cell ends at a free cell.
pub proof fn lemma_clear_line_end(grid: &OccupancyGrid, p1: Cell, p2: Cell)
    requires
        clear_line(grid, p1, p2),
        grid.free(p1),
    ensures
        grid.free(p2),
{
    if p1 != p2 {
        lemma_line_ends(p1, p2);
        let line = line_cells(p1, p2);
        assert(grid.free(line[line.len() - 1]));
    }
}

} // verus!
