//! What every planner reports, and what it means for a path to be valid.

use crate::grid::{touches, Cell, OccupancyGrid};
use vstd::prelude::*;

verus! {

/// How a planning run ended.
#[derive(Clone, Copy, Debug, PartialEq, Eq, Structural)]
pub enum Outcome {
    /// A path from start to goal was found.
    Found,
    /// The search settled without connecting start and goal.
    Unreachable,
    /// The node budget ran out before the goal was absorbed.
    ResourceExhausted,
    /// Start or goal lies off the grid or inside an obstacle.
    InvalidInput,
}

/// Every cell of `path` is a free cell of the grid.
pub open spec fn path_free(grid: &OccupancyGrid, path: Seq<Cell>) -> bool {
    forall|i: int| 0 <= i < path.len() ==> grid.free(#[trigger] path[i])
}

/// Each cell of `path` touches the next one.
pub open spec fn path_linked(path: Seq<Cell>, eight: bool) -> bool {
    forall|i: int| 0 <= i < path.len() - 1 ==> touches(eight, #[trigger] path[i], path[i + 1])
}

/// `path` leads from `start` to `goal`.
pub open spec fn path_joins(path: Seq<Cell>, start: Cell, goal: Cell) -> bool {
    path.len() > 0 && path[0] == start && path[path.len() - 1] == goal
}

/// A valid path stays valid with one more free cell in front that touches
/// its first.
pub proof fn lemma_path_prepend(grid: &OccupancyGrid, c: Cell, rest: Seq<Cell>, goal: Cell, eight: bool)
    requires
        grid.free(c),
        path_free(grid, rest),
        path_linked(rest, eight),
        rest.len() > 0,
        rest[rest.len() - 1] == goal,
        touches(eight, c, rest[0]),
    ensures
        path_free(grid, seq![c] + rest),
        path_linked(seq![c] + rest, eight),
        path_joins(seq![c] + rest, c, goal),
{
    let path = seq![c] + rest;
    assert forall|i: int| 0 <= i < path.len() implies grid.free(#[trigger] path[i]) by {
        if i > 0 {
            assert(path[i] == rest[i - 1]);
        }
    }
    assert forall|i: int| 0 <= i < path.len() - 1 implies touches(eight, #[trigger] path[i], path[i + 1]) by {
        assert(path[i + 1] == rest[i]);
        if i > 0 {
            assert(path[i] == rest[i - 1]);
        }
    }
    assert(path[path.len() - 1] == rest[rest.len() - 1]);
}

/// A valid path stays valid with one more free cell behind that its last
/// touches.
pub proof fn lemma_path_append(grid: &OccupancyGrid, front: Seq<Cell>, c: Cell, start: Cell, eight: bool)
    requires
        grid.free(c),
        path_free(grid, front),
        path_linked(front, eight),
        front.len() > 0,
        front[0] == start,
        touches(eight, front[front.len() - 1], c),
    ensures
        path_free(grid, front.push(c)),
        path_linked(front.push(c), eight),
        path_joins(front.push(c), start, c),
{
    let path = front.push(c);
    assert forall|i: int| 0 <= i < path.len() implies grid.free(#[trigger] path[i]) by {
        if i < front.len() {
            assert(path[i] == front[i]);
        }
    }
    assert forall|i: int| 0 <= i < path.len() - 1 implies touches(eight, #[trigger] path[i], path[i + 1]) by {
        assert(path[i] == front[i]);
        if i + 1 < front.len() {
            assert(path[i + 1] == front[i + 1]);
        }
    }
}

/// Whether some path over free cells, each touching the next, leads from
/// `from` to `to`.
pub open spec fn reachable(grid: &OccupancyGrid, eight: bool, from: Cell, to: Cell) -> bool {
    exists|path: Seq<Cell>|
        #[trigger] path_joins(path, from, to) && path_free(grid, path) && path_linked(path, eight)
}

/// A set of cells that holds the first cell of a path and, with a cell, each
/// free cell that touches it, holds every cell of the path.
pub proof fn lemma_closed_holds(
    grid: &OccupancyGrid,
    eight: bool,
    inside: spec_fn(Cell) -> bool,
    path: Seq<Cell>,
    i: int,
)
    requires
        path_free(grid, path),
        path_linked(path, eight),
        0 <= i < path.len(),
        inside(path[0]),
        forall|c: Cell, q: Cell|
            inside(c) && grid.free(q) && #[trigger] touches(eight, c, q) ==> inside(q),
    ensures
        inside(path[i]),
    decreases i,
{
    if i > 0 {
        lemma_closed_holds(grid, eight, inside, path, i - 1);
        assert(touches(eight, path[i - 1], path[i]));
        assert(grid.free(path[i]));
    }
}

/// A cell reached stays reached with one more step to a free cell that
/// touches it.
pub proof fn lemma_reach_step(grid: &OccupancyGrid, eight: bool, from: Cell, via: Cell, to: Cell)
    requires
        reachable(grid, eight, from, via),
        grid.free(to),
        touches(eight, via, to),
    ensures
        reachable(grid, eight, from, to),
{
    let path = choose|path: Seq<Cell>|
        #[trigger] path_joins(path, from, via) && path_free(grid, path) && path_linked(path, eight);
    lemma_path_append(grid, path, to, from, eight);
    assert(path_joins(path.push(to), from, to));
}

/// A free cell is reached from itself.
pub proof fn lemma_reach_self(grid: &OccupancyGrid, eight: bool, c: Cell)
    requires
        grid.free(c),
    ensures
        reachable(grid, eight, c, c),
{
    let path = seq![c];
    assert(path_joins(path, c, c));
    assert(path_free(grid, path));
    assert(path_linked(path, eight));
}

/// The cells of `path` from the last to the first.
pub open spec fn backwards(path: Seq<Cell>) -> Seq<Cell> {
    Seq::new(path.len(), |i: int| path[path.len() - 1 - i])
}

/// A path walked backwards is a path as long, over the same cells, between
/// the same ends.
pub proof fn lemma_path_backwards(grid: &OccupancyGrid, eight: bool, path: Seq<Cell>, from: Cell, to: Cell)
    requires
        path_joins(path, from, to),
        path_free(grid, path),
        path_linked(path, eight),
    ensures
        path_joins(backwards(path), to, from),
        path_free(grid, backwards(path)),
        path_linked(backwards(path), eight),
        backwards(path).len() == path.len(),
{
    let back = backwards(path);
    assert forall|i: int| 0 <= i < back.len() implies grid.free(#[trigger] back[i]) by {
        assert(grid.free(path[path.len() - 1 - i]));
    }
    assert forall|i: int| 0 <= i < back.len() - 1 implies touches(eight, #[trigger] back[i], back[i + 1]) by {
        let j = path.len() - 2 - i;
        assert(touches(eight, path[j], path[j + 1]));
    }
}

/// What can be reached from a cell, that cell can be reached from.
pub proof fn lemma_reach_back(grid: &OccupancyGrid, eight: bool, from: Cell, to: Cell)
    requires
        reachable(grid, eight, from, to),
    ensures
        reachable(grid, eight, to, from),
{
    let path = choose|path: Seq<Cell>|
        #[trigger] path_joins(path, from, to) && path_free(grid, path) && path_linked(path, eight);
    lemma_path_backwards(grid, eight, path, from, to);
    assert(path_joins(backwards(path), to, from));
}

} // verus!
