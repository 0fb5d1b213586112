//! Sampling planners: a tree grows from the start towards random targets,
//! in steps of bounded length over obstacle-free lines, until its node budget
//! is used up.

use crate::grid::{gap, Cell, OccupancyGrid, MAX_SIDE};
use crate::line::{clear_line, lemma_clear_line_end, line_of_sight};
use crate::measure::{
    get_distances, get_new_position, lemma_span_bound, lemma_span_positive, span, steer, MAX_LENGTH,
    MAX_STEP,
};
use crate::plan::{path_free, Outcome};
use rand::rngs::StdRng;
use rand::Rng;
use vstd::prelude::*;

verus! {

/// What a sampling planner returns.
#[derive(Debug)]
pub struct TreeResult {
    /// The cells from the start to the goal where the goal was absorbed,
    /// else the start alone; empty where the input was refused.
    pub path: Vec<(usize, usize)>,
    /// The tree as edges: each node's position with that of its parent.
    pub tree: Vec<((usize, usize), (usize, usize))>,
    /// How the run ended.
    pub outcome: Outcome,
}

/// `v` kept within `usize`.
pub open spec fn clamp(v: int) -> usize {
    if v < 0 {
        0
    } else if v > usize::MAX {
        usize::MAX
    } else {
        v as usize
    }
}

/// The square of side `2 * range + 1` around `pos`, as the lowest and highest
/// row and the lowest and highest column, cut off at the limits of `usize`.
pub fn get_range(pos: (usize, usize), range: i32) -> (r: ((usize, usize), (usize, usize)))
    ensures
        r.0.0 == clamp(pos.0 - range),
        r.0.1 == clamp(pos.0 + range),
        r.1.0 == clamp(pos.1 - range),
        r.1.1 == clamp(pos.1 + range),
{
    if range >= 0 {
        let d: usize = range as usize;
        (
            (pos.0.saturating_sub(d), pos.0.saturating_add(d)),
            (pos.1.saturating_sub(d), pos.1.saturating_add(d)),
        )
    } else {
        let d: usize = (-(range as i64)) as usize;
        (
            (pos.0.saturating_add(d), pos.0.saturating_sub(d)),
            (pos.1.saturating_add(d), pos.1.saturating_sub(d)),
        )
    }
}

/// Whether `pos` lies in `range`, given as the lowest and highest row and the
/// lowest and highest column.
pub fn is_in_range(pos: (usize, usize), range: ((usize, usize), (usize, usize))) -> (r: bool)
    ensures
        r == (range.0.0 <= pos.0 <= range.0.1 && range.1.0 <= pos.1 <= range.1.1),
{
    (pos.0 >= range.0.0 && pos.0 <= range.0.1) && (pos.1 >= range.1.0 && pos.1 <= range.1.1)
}

/// A position is captured by a radius around `center` where it is at most
/// that far from it in each coordinate.
pub proof fn lemma_range_is_square(center: Cell, radius: i32, pos: Cell)
    requires
        radius >= 0,
    ensures
        captured(pos, center, radius) <==> (gap(pos.0, center.0) <= radius && gap(pos.1, center.1)
            <= radius),
{
}

/// The most nodes that a tree can hold.
pub const MAX_NODES: usize = 16383;

/// The usual step distance, in cells.
pub const STEP_DISTANCE: u64 = 10;

/// The usual radius around the goal within which a new point counts as the
/// goal.
pub const END_POSITION: i32 = 5;

/// The usual factor between the step distance and the radius within which
/// nodes are rewired.
pub const REWIRE_DISTANCE_FACTOR: u64 = 2;

/// The usual number of random targets after which a run gives up.
pub const SAMPLE_LIMIT: usize = 1000000;

/// The largest factor between the step distance and the rewire radius.
pub const MAX_FACTOR: u64 = 0x7fff;

/// A node of the tree.
#[derive(Clone, Copy, Debug)]
pub struct Node {
    /// Where the node lies.
    pub pos: (usize, usize),
    /// The index of the parent; the root is its own.
    pub parent: usize,
    /// The length of the way from the root, in units of length; 0 in a tree
    /// that does not keep it.
    pub distance: u64,
}

/// What a sampling planner can be told.
#[derive(Clone, Copy, Debug)]
pub struct TreeConfig {
    /// The most nodes that the tree may hold.
    pub max_nodes: usize,
    /// How far a new node lies from the node it grows from, at most, in
    /// cells.
    pub step_distance: u64,
    /// The radius around the goal within which a new point counts as the
    /// goal.
    pub capture_radius: i32,
    /// The rewire radius in step distances.
    pub rewire_factor: u64,
    /// The number of random targets after which a run gives up.
    pub sample_limit: usize,
}

impl TreeConfig {
    /// Whether the planners accept the configuration.
    pub open spec fn valid(&self) -> bool {
        1 <= self.step_distance <= MAX_STEP && self.rewire_factor <= MAX_FACTOR
    }

    /// The radius within which nodes are rewired, in cells.
    pub open spec fn rewire_radius(&self) -> i32 {
        (self.step_distance * self.rewire_factor) as i32
    }

    /// The usual configuration.
    pub fn standard() -> (cfg: TreeConfig)
        ensures
            cfg.valid(),
            cfg.max_nodes == MAX_NODES,
            cfg.step_distance == STEP_DISTANCE,
            cfg.capture_radius == END_POSITION,
            cfg.rewire_factor == REWIRE_DISTANCE_FACTOR,
            cfg.sample_limit == SAMPLE_LIMIT,
    {
        TreeConfig {
            max_nodes: MAX_NODES,
            step_distance: STEP_DISTANCE,
            capture_radius: END_POSITION,
            rewire_factor: REWIRE_DISTANCE_FACTOR,
            sample_limit: SAMPLE_LIMIT,
        }
    }

    /// Whether the planners accept the configuration.
    pub fn is_valid(&self) -> (ok: bool)
        ensures
            ok == self.valid(),
    {
        1 <= self.step_distance && self.step_distance <= MAX_STEP && self.rewire_factor <= MAX_FACTOR
    }
}

impl Default for TreeConfig {
    /// The usual configuration.
    fn default() -> (cfg: TreeConfig)
        ensures
            cfg.valid(),
            cfg.max_nodes == MAX_NODES,
            cfg.step_distance == STEP_DISTANCE,
            cfg.capture_radius == END_POSITION,
            cfg.rewire_factor == REWIRE_DISTANCE_FACTOR,
            cfg.sample_limit == SAMPLE_LIMIT,
    {
        TreeConfig::standard()
    }
}

/// The node budget: the configured number of nodes, at most `MAX_NODES` and
/// at most one node for each `step` cells of the grid.
pub open spec fn budget(cfg: &TreeConfig, area: nat) -> nat {
    let by_area = area / (cfg.step_distance as nat);
    let cap = if cfg.max_nodes < MAX_NODES {
        cfg.max_nodes
    } else {
        MAX_NODES
    };
    if by_area < cap {
        by_area
    } else {
        cap as nat
    }
}

/// Whether `pos` lies within `radius` of `center` in each coordinate.
pub open spec fn captured(pos: Cell, center: Cell, radius: i32) -> bool {
    clamp(center.0 - radius) <= pos.0 <= clamp(center.0 + radius) && clamp(center.1 - radius) <= pos.1
        <= clamp(center.1 + radius)
}

/// The position that a new point takes: the goal where the point lies within
/// the capture radius of it.
pub open spec fn snap(pos: Cell, goal: Cell, radius: i32) -> Cell {
    if captured(pos, goal, radius) {
        goal
    } else {
        pos
    }
}

/// A candidate for the next node.
#[derive(Clone, Copy, Debug)]
pub struct Pick {
    /// The node that the candidate grows from.
    pub from: usize,
    /// The steered point.
    pub pos: (usize, usize),
    /// The distance between that node and the target.
    pub far: u64,
}

/// The best candidate among the first `n` nodes: each node steers towards
/// the target, and of those whose way to the steered point is clear the one
/// nearest to the target wins, the earliest among equals. With `skip_goal`
/// a node on the goal does not grow.
pub open spec fn nearest(
    grid: &OccupancyGrid,
    nodes: Seq<Node>,
    goal: Cell,
    target: Cell,
    step: u64,
    skip_goal: bool,
    n: nat,
) -> Option<Pick>
    decreases n,
{
    if n == 0 {
        None
    } else {
        let before = nearest(grid, nodes, goal, target, step, skip_goal, (n - 1) as nat);
        let node = nodes[n - 1];
        let to = steer(node.pos, target, step);
        let far = span(node.pos, target);
        if (skip_goal ==> node.pos != goal) && (before matches Some(b) ==> b.far > far) && clear_line(
            grid,
            node.pos,
            to,
        ) {
            Some(Pick { from: (n - 1) as usize, pos: to, far: far as u64 })
        } else {
            before
        }
    }
}

/// The best parent for a node at `pos` among the first `n` nodes, with the
/// length of the way from the root over it: of the nodes with a clear way to
/// `pos` the one over which that way is shortest, the earliest among equals.
pub open spec fn cheapest(grid: &OccupancyGrid, nodes: Seq<Node>, pos: Cell, n: nat) -> Option<
    (usize, u64),
>
    decreases n,
{
    if n == 0 {
        None
    } else {
        let before = cheapest(grid, nodes, pos, (n - 1) as nat);
        let node = nodes[n - 1];
        let way = node.distance + span(pos, node.pos);
        if (before matches Some(b) ==> b.1 > way) && clear_line(grid, node.pos, pos) {
            Some(((n - 1) as usize, way as u64))
        } else {
            before
        }
    }
}

/// A node after the insertion of `fresh` at index `at`: it hangs below
/// `fresh` where it lies elsewhere within `radius` of it, the way over
/// `fresh` is strictly shorter than its own, and the way to `fresh` is clear.
pub open spec fn rewired(grid: &OccupancyGrid, node: Node, fresh: Node, at: usize, radius: i32) -> Node {
    let way = fresh.distance + span(fresh.pos, node.pos);
    if node.pos != fresh.pos && captured(node.pos, fresh.pos, radius) && node.distance > way
        && clear_line(grid, node.pos, fresh.pos) {
        Node { pos: node.pos, parent: at, distance: way as u64 }
    } else {
        node
    }
}

/// The node that joins a tree which keeps distances, at `pos`: below its best
/// parent, or below the root where no node has a clear way to it.
pub open spec fn joining(grid: &OccupancyGrid, nodes: Seq<Node>, pos: Cell) -> Node {
    match cheapest(grid, nodes, pos, nodes.len()) {
        Some((parent, way)) => Node { pos, parent, distance: way },
        None => Node { pos, parent: 0, distance: span(nodes[0].pos, pos) as u64 },
    }
}

/// The tree after the nodes around its last node are rewired.
pub open spec fn rewired_all(grid: &OccupancyGrid, all: Seq<Node>, radius: i32) -> Seq<Node> {
    Seq::new(
        all.len(),
        |i: int| rewired(grid, all[i], all[all.len() - 1], (all.len() - 1) as usize, radius),
    )
}

/// The tree after one random target: unchanged where the target lies off the
/// grid or no node has a clear way towards it, else with one more node.
/// With `star` the new node hangs below its best parent and the nodes around
/// it are rewired; without, it hangs below the node it grew from.
pub open spec fn extend(
    grid: &OccupancyGrid,
    cfg: &TreeConfig,
    goal: Cell,
    nodes: Seq<Node>,
    target: Cell,
    star: bool,
    skip_goal: bool,
) -> Seq<Node> {
    if !grid.has(target) {
        nodes
    } else {
        match nearest(grid, nodes, goal, target, cfg.step_distance, skip_goal, nodes.len()) {
            None => nodes,
            Some(pick) => {
                let pos = snap(pick.pos, goal, cfg.capture_radius);
                if !star {
                    nodes.push(Node { pos, parent: pick.from, distance: 0 })
                } else {
                    rewired_all(grid, nodes.push(joining(grid, nodes, pos)), cfg.rewire_radius())
                }
            },
        }
    }
}

/// The tree that grows from `start` over the random targets, one after the
/// other, as long as it holds fewer than `most` nodes.
pub open spec fn grow(
    grid: &OccupancyGrid,
    cfg: &TreeConfig,
    start: Cell,
    goal: Cell,
    targets: Seq<Cell>,
    star: bool,
    skip_goal: bool,
    most: nat,
) -> Seq<Node>
    decreases targets.len(),
{
    if targets.len() == 0 {
        seq![Node { pos: start, parent: 0, distance: 0 }]
    } else {
        let before = grow(grid, cfg, start, goal, targets.drop_last(), star, skip_goal, most);
        if before.len() < most {
            extend(grid, cfg, goal, before, targets.last(), star, skip_goal)
        } else {
            before
        }
    }
}

/// Whether two cells are the same.
pub fn same_cell(a: Cell, b: Cell) -> (r: bool)
    ensures
        r == (a == b),
{
    a.0 == b.0 && a.1 == b.1
}

/// Whether `pos` lies within `radius` of `center` in each coordinate.
pub fn is_captured(pos: Cell, center: Cell, radius: i32) -> (r: bool)
    ensures
        r == captured(pos, center, radius),
{
    is_in_range(pos, get_range(center, radius))
}

/// What the planners need of the positions of a tree: they are free cells of
/// the grid.
pub open spec fn placed(grid: &OccupancyGrid, nodes: Seq<Node>) -> bool {
    forall|i: int| 0 <= i < nodes.len() ==> grid.free(#[trigger] nodes[i].pos)
}

/// Finds the best candidate for the next node.
fn nearest_node(
    grid: &OccupancyGrid,
    nodes: &Vec<Node>,
    goal: Cell,
    target: Cell,
    step: u64,
    skip_goal: bool,
) -> (best: Option<Pick>)
    requires
        placed(grid, nodes@),
        grid.has(target),
        step <= MAX_STEP,
    ensures
        best == nearest(grid, nodes@, goal, target, step, skip_goal, nodes.len() as nat),
{
    proof {
        use_type_invariant(grid);
        grid.lemma_area();
    }
    let mut best: Option<Pick> = None;
    let mut i: usize = 0;
    while i < nodes.len()
        invariant
            i <= nodes.len(),
            placed(grid, nodes@),
            grid.has(target),
            grid.spec_rows() <= MAX_SIDE,
            grid.spec_cols() <= MAX_SIDE,
            step <= MAX_STEP,
            best == nearest(grid, nodes@, goal, target, step, skip_goal, i as nat),
        decreases nodes.len() - i,
    {
        let node = nodes[i];
        assert(grid.free(nodes@[i as int].pos));
        if !(skip_goal && same_cell(node.pos, goal)) {
            let (to, far) = get_new_position(node.pos, target, step);
            let closer = match best {
                None => true,
                Some(b) => b.far > far,
            };
            if closer && line_of_sight(grid, node.pos, to) {
                best = Some(Pick { from: i, pos: to, far });
            }
        }
        i += 1;
    }
    best
}

/// Finds the best parent for a node at `pos`.
fn cheapest_parent(grid: &OccupancyGrid, nodes: &Vec<Node>, pos: Cell) -> (best: Option<(usize, u64)>)
    requires
        placed(grid, nodes@),
        grid.has(pos),
        forall|i: int| 0 <= i < nodes.len() ==> (#[trigger] nodes[i]).distance + MAX_LENGTH <= u64::MAX,
    ensures
        best == cheapest(grid, nodes@, pos, nodes.len() as nat),
{
    proof {
        use_type_invariant(grid);
        grid.lemma_area();
    }
    let mut best: Option<(usize, u64)> = None;
    let mut i: usize = 0;
    while i < nodes.len()
        invariant
            i <= nodes.len(),
            placed(grid, nodes@),
            grid.has(pos),
            grid.spec_rows() <= MAX_SIDE,
            grid.spec_cols() <= MAX_SIDE,
            forall|j: int| 0 <= j < nodes.len() ==> (#[trigger] nodes[j]).distance + MAX_LENGTH <= u64::MAX,
            best == cheapest(grid, nodes@, pos, i as nat),
        decreases nodes.len() - i,
    {
        let node = nodes[i];
        assert(grid.free(nodes@[i as int].pos));
        let (_, _, way) = get_distances(pos, node.pos, node.distance);
        let shorter = match best {
            None => true,
            Some(b) => b.1 > way,
        };
        if shorter && line_of_sight(grid, node.pos, pos) {
            best = Some((i, way));
        }
        i += 1;
    }
    best
}

/// Whether the node `i` hangs below a node that comes before it in the
/// order by distance from the root and, among equals, by index.
pub open spec fn linked(nodes: Seq<Node>, i: int) -> bool {
    let p = nodes[i].parent as int;
    0 <= p < nodes.len() && (nodes[p].distance < nodes[i].distance || (nodes[p].distance
        == nodes[i].distance && p < i))
}

/// Whether the parents make the nodes a tree below the first node: the root
/// is its own parent, and every other node is linked.
pub open spec fn well_linked(nodes: Seq<Node>) -> bool {
    &&& nodes.len() >= 1
    &&& nodes[0].parent == 0
    &&& forall|i: int| 0 < i < nodes.len() ==> linked(nodes, i)
}

/// Whether the way between a node at `to` and its parent at `from` has been
/// found clear, in one direction or the other, or the node was set on the
/// goal.
pub open spec fn sighted(grid: &OccupancyGrid, goal: Cell, from: Cell, to: Cell) -> bool {
    clear_line(grid, from, to) || clear_line(grid, to, from) || to == goal
}

/// Whether every node is sighted from its parent.
pub open spec fn all_sighted(grid: &OccupancyGrid, goal: Cell, nodes: Seq<Node>) -> bool {
    forall|i: int|
        0 <= i < nodes.len() && nodes[i].parent < nodes.len() ==> sighted(
            grid,
            goal,
            nodes[nodes[i].parent as int].pos,
            (#[trigger] nodes[i]).pos,
        )
}

/// What holds of a tree throughout a run.
#[verifier::opaque]
pub open spec fn tree_ok(grid: &OccupancyGrid, goal: Cell, nodes: Seq<Node>, star: bool) -> bool {
    &&& placed(grid, nodes)
    &&& well_linked(nodes)
    &&& all_sighted(grid, goal, nodes)
    &&& nodes.len() <= MAX_NODES
    &&& nodes[0].distance == 0
    &&& forall|i: int| 0 <= i < nodes.len() ==> (#[trigger] nodes[i]).distance <= nodes.len() * MAX_LENGTH
    &&& !star ==> forall|i: int| 0 <= i < nodes.len() ==> (#[trigger] nodes[i]).distance == 0
}

/// What a sound tree offers to the code that reads it.
proof fn lemma_tree_ok(grid: &OccupancyGrid, goal: Cell, nodes: Seq<Node>, star: bool)
    requires
        tree_ok(grid, goal, nodes, star),
    ensures
        placed(grid, nodes),
        well_linked(nodes),
        all_sighted(grid, goal, nodes),
        1 <= nodes.len() <= MAX_NODES,
        forall|i: int| 0 <= i < nodes.len() ==> (#[trigger] nodes[i]).distance + MAX_LENGTH <= u64::MAX,
{
    reveal(tree_ok);
    assert forall|i: int| 0 <= i < nodes.len() implies (#[trigger] nodes[i]).distance + MAX_LENGTH
        <= u64::MAX by {
        assert(nodes[i].distance <= nodes.len() * MAX_LENGTH);
    }
}

/// The best candidate grows from one of the nodes looked at, over a clear
/// way to the point steered to.
proof fn lemma_nearest_pick(
    grid: &OccupancyGrid,
    nodes: Seq<Node>,
    goal: Cell,
    target: Cell,
    step: u64,
    skip_goal: bool,
    n: nat,
)
    requires
        n <= nodes.len() <= usize::MAX,
    ensures
        nearest(grid, nodes, goal, target, step, skip_goal, n) matches Some(pick) ==> pick.from < n
            && pick.pos == steer(nodes[pick.from as int].pos, target, step) && clear_line(
            grid,
            nodes[pick.from as int].pos,
            pick.pos,
        ),
    decreases n,
{
    if n > 0 {
        lemma_nearest_pick(grid, nodes, goal, target, step, skip_goal, (n - 1) as nat);
    }
}

/// The best parent is one of the nodes looked at, with a clear way to the
/// position, and the way over it is its own plus the distance between the
/// two.
proof fn lemma_cheapest_pick(grid: &OccupancyGrid, nodes: Seq<Node>, pos: Cell, n: nat)
    requires
        forall|i: int| 0 <= i < nodes.len() ==> (#[trigger] nodes[i]).distance + MAX_LENGTH <= u64::MAX,
        n <= nodes.len() <= usize::MAX,
    ensures
        cheapest(grid, nodes, pos, n) matches Some(best) ==> best.0 < n && best.1 == nodes[best.0 as int].distance
            + span(pos, nodes[best.0 as int].pos) && clear_line(grid, nodes[best.0 as int].pos, pos),
        cheapest(grid, nodes, pos, n) is None ==> forall|i: int|
            0 <= i < n ==> !clear_line(grid, (#[trigger] nodes[i]).pos, pos),
    decreases n,
{
    if n > 0 {
        lemma_cheapest_pick(grid, nodes, pos, (n - 1) as nat);
        lemma_span_bound(pos, nodes[n - 1].pos);
        assert(nodes[n - 1].distance + MAX_LENGTH <= u64::MAX);
    }
}

/// A sound tree stays sound with one more node that is placed on a free
/// cell and linked.
proof fn lemma_push_ok(grid: &OccupancyGrid, goal: Cell, nodes: Seq<Node>, fresh: Node, star: bool)
    requires
        tree_ok(grid, goal, nodes, star),
        nodes.len() < MAX_NODES,
        grid.free(fresh.pos),
        fresh.parent < nodes.len(),
        nodes[fresh.parent as int].distance <= fresh.distance,
        fresh.distance <= nodes[fresh.parent as int].distance + MAX_LENGTH,
        !star ==> fresh.distance == 0,
        sighted(grid, goal, nodes[fresh.parent as int].pos, fresh.pos),
    ensures
        tree_ok(grid, goal, nodes.push(fresh), star),
{
    reveal(tree_ok);
    let all = nodes.push(fresh);
    assert forall|i: int| 0 <= i < all.len() implies grid.free(#[trigger] all[i].pos) by {
        if i < nodes.len() {
            assert(all[i] == nodes[i]);
        }
    }
    assert forall|i: int| 0 < i < all.len() implies linked(all, i) by {
        if i < nodes.len() {
            assert(linked(nodes, i));
        }
    }
    assert forall|i: int| 0 <= i < all.len() && all[i].parent < all.len() implies sighted(
        grid,
        goal,
        all[all[i].parent as int].pos,
        (#[trigger] all[i]).pos,
    ) by {
        if i < nodes.len() {
            assert(all[i] == nodes[i]);
            if i > 0 {
                assert(linked(nodes, i));
            }
            assert(all[nodes[i].parent as int] == nodes[nodes[i].parent as int]);
        }
    }
    assert forall|i: int| 0 <= i < all.len() implies (#[trigger] all[i]).distance <= all.len()
        * MAX_LENGTH by {
        if i < nodes.len() {
            assert(all[i] == nodes[i]);
            assert(nodes[i].distance <= nodes.len() * MAX_LENGTH);
        } else {
            assert(nodes[fresh.parent as int].distance <= nodes.len() * MAX_LENGTH);
        }
    }
    if !star {
        assert forall|i: int| 0 <= i < all.len() implies (#[trigger] all[i]).distance == 0 by {
            if i < nodes.len() {
                assert(all[i] == nodes[i]);
            }
        }
    }
}

/// A sound tree stays sound when the nodes around its last node are rewired.
proof fn lemma_rewire_ok(grid: &OccupancyGrid, goal: Cell, all: Seq<Node>, radius: i32)
    requires
        tree_ok(grid, goal, all, true),
        all.len() >= 2,
    ensures
        tree_ok(grid, goal, rewired_all(grid, all, radius), true),
        rewired_all(grid, all, radius)[0] == all[0],
{
    reveal(tree_ok);
    let at = all.len() - 1;
    let fresh = all[at];
    let after = rewired_all(grid, all, radius);
    assert(after[at] == fresh);
    assert forall|i: int| 0 <= i < after.len() implies grid.free(#[trigger] after[i].pos) by {
        assert(grid.free(all[i].pos));
    }
    assert forall|i: int| 0 <= i < after.len() implies (#[trigger] after[i]).distance <= all[i].distance by {
        lemma_span_bound(fresh.pos, all[i].pos);
    }
    assert forall|i: int| 0 < i < after.len() implies linked(after, i) by {
        if after[i] != all[i] {
            lemma_span_positive(fresh.pos, all[i].pos);
            assert(after[i].parent == at);
        } else {
            assert(linked(all, i));
            let p = all[i].parent as int;
            assert(after[p].distance <= all[p].distance);
        }
    }
    assert forall|i: int| 0 <= i < after.len() && after[i].parent < after.len() implies sighted(
        grid,
        goal,
        after[after[i].parent as int].pos,
        (#[trigger] after[i]).pos,
    ) by {
        if after[i] == all[i] {
            if i > 0 {
                assert(linked(all, i));
            }
            assert(sighted(grid, goal, all[all[i].parent as int].pos, all[i].pos));
            assert(after[all[i].parent as int].pos == all[all[i].parent as int].pos);
        }
    }
    assert forall|i: int| 0 <= i < after.len() implies (#[trigger] after[i]).distance <= after.len()
        * MAX_LENGTH by {
        assert(after[i].distance <= all[i].distance);
        assert(all[i].distance <= all.len() * MAX_LENGTH);
    }
    lemma_span_bound(fresh.pos, all[0].pos);
    assert(after[0] == all[0]);
}

/// Rewires the nodes around the last node of the tree.
fn rewire(grid: &OccupancyGrid, nodes: &mut Vec<Node>, radius: i32)
    requires
        old(nodes).len() >= 1,
        placed(grid, old(nodes)@),
        forall|i: int| 0 <= i < old(nodes).len() ==> (#[trigger] old(nodes)[i]).distance + MAX_LENGTH <= u64::MAX,
    ensures
        final(nodes)@ == rewired_all(grid, old(nodes)@, radius),
{
    proof {
        use_type_invariant(grid);
        grid.lemma_area();
    }
    let n = nodes.len();
    let at = n - 1;
    let fresh = nodes[at];
    let mut i: usize = 0;
    assert(grid.free(nodes@[at as int].pos));
    while i < n
        invariant
            i <= n,
            n == nodes.len(),
            n == old(nodes).len(),
            at == n - 1,
            fresh == old(nodes)@[at as int],
            grid.free(fresh.pos),
            fresh.distance + MAX_LENGTH <= u64::MAX,
            placed(grid, old(nodes)@),
            grid.spec_rows() <= MAX_SIDE,
            grid.spec_cols() <= MAX_SIDE,
            forall|j: int|
                0 <= j < n ==> #[trigger] nodes@[j] == (if j < i {
                    rewired(grid, old(nodes)@[j], fresh, at, radius)
                } else {
                    old(nodes)@[j]
                }),
        decreases n - i,
    {
        let node = nodes[i];
        assert(node == old(nodes)@[i as int]);
        assert(grid.free(old(nodes)@[i as int].pos));
        if !same_cell(node.pos, fresh.pos) && is_captured(node.pos, fresh.pos, radius) {
            let (_, _, way) = get_distances(fresh.pos, node.pos, fresh.distance);
            if node.distance > way && line_of_sight(grid, node.pos, fresh.pos) {
                nodes[i] = Node { pos: node.pos, parent: at, distance: way };
            }
        }
        i += 1;
    }
    proof {
        assert(nodes@ =~= rewired_all(grid, old(nodes)@, radius));
    }
}

/// Hangs a node at `pos` below the node `from` of a tree that keeps no
/// distances.
fn attach(grid: &OccupancyGrid, goal: Cell, nodes: &mut Vec<Node>, from: usize, pos: Cell)
    requires
        tree_ok(grid, goal, old(nodes)@, false),
        old(nodes).len() < MAX_NODES,
        from < old(nodes).len(),
        grid.free(pos),
        sighted(grid, goal, old(nodes)@[from as int].pos, pos),
    ensures
        final(nodes)@ == old(nodes)@.push(Node { pos, parent: from, distance: 0 }),
        tree_ok(grid, goal, final(nodes)@, false),
{
    let fresh = Node { pos, parent: from, distance: 0 };
    proof {
        assert(nodes@[from as int].distance == 0) by {
            reveal(tree_ok);
        }
        lemma_push_ok(grid, goal, nodes@, fresh, false);
    }
    nodes.push(fresh);
}

/// The node that joins a tree which keeps distances, at `pos`.
fn joining_node(grid: &OccupancyGrid, goal: Cell, nodes: &Vec<Node>, from: usize, pos: Cell) -> (fresh: Node)
    requires
        tree_ok(grid, goal, nodes@, true),
        nodes.len() < MAX_NODES,
        from < nodes.len(),
        grid.free(pos),
        pos == goal || clear_line(grid, nodes@[from as int].pos, pos),
    ensures
        fresh == joining(grid, nodes@, pos),
        tree_ok(grid, goal, nodes@.push(fresh), true),
{
    proof {
        use_type_invariant(grid);
        grid.lemma_area();
        lemma_tree_ok(grid, goal, nodes@, true);
        lemma_cheapest_pick(grid, nodes@, pos, nodes.len() as nat);
        assert(grid.free(nodes@[0].pos));
    }
    let fresh = match cheapest_parent(grid, nodes, pos) {
        Some((parent, way)) => {
            proof {
                lemma_span_bound(pos, nodes@[parent as int].pos);
            }
            Node { pos, parent, distance: way }
        },
        None => {
            let root = nodes[0];
            let (_, _, way) = get_distances(root.pos, pos, 0);
            proof {
                assert(root.distance == 0) by {
                    reveal(tree_ok);
                }
                lemma_span_bound(root.pos, pos);
                assert(!clear_line(grid, nodes@[from as int].pos, pos));
            }
            Node { pos, parent: 0, distance: way }
        },
    };
    proof {
        lemma_push_ok(grid, goal, nodes@, fresh, true);
    }
    fresh
}

/// Lets a node at `pos` join a tree that keeps distances: it hangs below its
/// best parent, and the nodes around it are rewired.
fn join(grid: &OccupancyGrid, cfg: &TreeConfig, goal: Cell, nodes: &mut Vec<Node>, from: usize, pos: Cell)
    requires
        cfg.valid(),
        tree_ok(grid, goal, old(nodes)@, true),
        old(nodes).len() < MAX_NODES,
        from < old(nodes).len(),
        grid.free(pos),
        pos == goal || clear_line(grid, old(nodes)@[from as int].pos, pos),
    ensures
        final(nodes)@ == rewired_all(
            grid,
            old(nodes)@.push(joining(grid, old(nodes)@, pos)),
            cfg.rewire_radius(),
        ),
        tree_ok(grid, goal, final(nodes)@, true),
        final(nodes)@[0] == old(nodes)@[0],
        final(nodes).len() == old(nodes).len() + 1,
{
    let fresh = joining_node(grid, goal, nodes, from, pos);
    nodes.push(fresh);
    proof {
        lemma_tree_ok(grid, goal, nodes@, true);
        lemma_rewire_ok(grid, goal, nodes@, cfg.rewire_radius());
        assert(cfg.step_distance * cfg.rewire_factor <= 0xffff * 0x7fff) by (nonlinear_arith)
            requires
                0 <= cfg.step_distance <= 0xffff,
                0 <= cfg.rewire_factor <= 0x7fff,
        ;
    }
    let radius: i32 = (cfg.step_distance * cfg.rewire_factor) as i32;
    rewire(grid, nodes, radius);
}

/// What the best candidate offers: it grows from a node of the tree, and the
/// position that the new node takes is a free cell, sighted from that node.
proof fn lemma_pick_placed(
    grid: &OccupancyGrid,
    cfg: &TreeConfig,
    goal: Cell,
    nodes: Seq<Node>,
    target: Cell,
    skip_goal: bool,
    pick: Pick,
)
    requires
        placed(grid, nodes),
        nodes.len() <= usize::MAX,
        grid.free(goal),
        nearest(grid, nodes, goal, target, cfg.step_distance, skip_goal, nodes.len()) == Some(pick),
    ensures
        pick.from < nodes.len(),
        grid.free(snap(pick.pos, goal, cfg.capture_radius)),
        snap(pick.pos, goal, cfg.capture_radius) == goal || clear_line(
            grid,
            nodes[pick.from as int].pos,
            snap(pick.pos, goal, cfg.capture_radius),
        ),
        sighted(grid, goal, nodes[pick.from as int].pos, snap(pick.pos, goal, cfg.capture_radius)),
{
    lemma_nearest_pick(grid, nodes, goal, target, cfg.step_distance, skip_goal, nodes.len());
    assert(grid.free(nodes[pick.from as int].pos));
    lemma_clear_line_end(grid, nodes[pick.from as int].pos, pick.pos);
}

/// Grows the tree by one random target.
///
/// A target off the grid, or one towards which no node has a clear way,
/// leaves the tree as it is. Else the tree gains one node: the point steered
/// to from the best node, or the goal where that point lies within the
/// capture radius of it. With `star` the node hangs below its best parent
/// and the nodes around it are rewired.
pub fn extend_tree(
    grid: &OccupancyGrid,
    cfg: &TreeConfig,
    goal: Cell,
    nodes: &mut Vec<Node>,
    target: Cell,
    star: bool,
    skip_goal: bool,
)
    requires
        cfg.valid(),
        grid.free(goal),
        tree_ok(grid, goal, old(nodes)@, star),
        old(nodes).len() < MAX_NODES,
    ensures
        final(nodes)@ == extend(grid, cfg, goal, old(nodes)@, target, star, skip_goal),
        tree_ok(grid, goal, final(nodes)@, star),
        old(nodes).len() <= final(nodes).len() <= old(nodes).len() + 1,
        final(nodes)@[0] == old(nodes)@[0],
{
    proof {
        lemma_tree_ok(grid, goal, nodes@, star);
    }
    if !grid.contains(target) {
        return ;
    }
    match nearest_node(grid, nodes, goal, target, cfg.step_distance, skip_goal) {
        None => {},
        Some(pick) => {
            proof {
                lemma_pick_placed(grid, cfg, goal, nodes@, target, skip_goal, pick);
            }
            let pos = if is_captured(pick.pos, goal, cfg.capture_radius) {
                goal
            } else {
                pick.pos
            };
            if star {
                join(grid, cfg, goal, nodes, pick.from, pos);
            } else {
                attach(grid, goal, nodes, pick.from, pos);
            }
        },
    }
}

/// The index of the first of the first `n` nodes that lies at `pos`.
pub open spec fn first_at(nodes: Seq<Node>, pos: Cell, n: nat) -> Option<usize>
    decreases n,
{
    if n == 0 {
        None
    } else {
        match first_at(nodes, pos, (n - 1) as nat) {
            Some(i) => Some(i),
            None => if nodes[n - 1].pos == pos {
                Some((n - 1) as usize)
            } else {
                None
            },
        }
    }
}

/// The positions on the way from the root to the node `i`, the root first.
pub open spec fn chain(nodes: Seq<Node>, i: int) -> Seq<Cell>
    decreases nodes[i].distance, i,
{
    if 0 < i < nodes.len() && linked(nodes, i) {
        chain(nodes, nodes[i].parent as int).push(nodes[i].pos)
    } else if 0 <= i < nodes.len() {
        seq![nodes[i].pos]
    } else {
        Seq::empty()
    }
}

/// The node at which the way to `end` ends: the first node at `end`, or the
/// root where no node lies there.
pub open spec fn finish(nodes: Seq<Node>, end: Cell) -> int {
    match first_at(nodes, end, nodes.len()) {
        Some(i) => i as int,
        None => 0,
    }
}

/// What `first_at` finds lies at the position, among the nodes looked at.
proof fn lemma_first_at(nodes: Seq<Node>, pos: Cell, n: nat)
    requires
        n <= nodes.len() <= usize::MAX,
    ensures
        first_at(nodes, pos, n) matches Some(i) ==> i < n && nodes[i as int].pos == pos,
        first_at(nodes, pos, n) is None ==> forall|j: int| 0 <= j < n ==> (#[trigger] nodes[j]).pos != pos,
    decreases n,
{
    if n > 0 {
        lemma_first_at(nodes, pos, (n - 1) as nat);
    }
}

/// The index of the first node at `pos`, if there is one.
pub fn locate(pos: Cell, nodes: &Vec<Node>) -> (at: Option<usize>)
    ensures
        at == first_at(nodes@, pos, nodes.len() as nat),
{
    let mut at: Option<usize> = None;
    let mut i: usize = 0;
    while i < nodes.len()
        invariant_except_break
            at is None,
            at == first_at(nodes@, pos, i as nat),
        invariant
            i <= nodes.len(),
        ensures
            at == first_at(nodes@, pos, nodes.len() as nat),
        decreases nodes.len() - i,
    {
        if same_cell(nodes[i].pos, pos) {
            at = Some(i);
            proof {
                lemma_first_at_stays(nodes@, pos, (i + 1) as nat, nodes.len() as nat);
            }
            break ;
        }
        i += 1;
    }
    at
}

/// The positions on the way through the tree from the root to the node
/// `last`.
pub fn trace(nodes: &Vec<Node>, last: usize) -> (path: Vec<Cell>)
    requires
        well_linked(nodes@),
        last < nodes.len(),
    ensures
        path@ == chain(nodes@, last as int),
{
    let mut back: Vec<Cell> = Vec::new();
    let mut cur = last;
    let ghost whole = chain(nodes@, last as int);
    let ghost mut tail: Seq<Cell> = Seq::empty();
    proof {
        assert(chain(nodes@, cur as int) + tail =~= whole);
    }
    loop
        invariant_except_break
            whole == chain(nodes@, cur as int) + tail,
        invariant
            cur < nodes.len(),
            well_linked(nodes@),
            tail.len() == back.len(),
            forall|j: int| 0 <= j < tail.len() ==> #[trigger] tail[j] == back[back.len() - 1 - j],
        ensures
            whole == tail,
            tail.len() == back.len(),
            forall|j: int| 0 <= j < tail.len() ==> #[trigger] tail[j] == back[back.len() - 1 - j],
        decreases nodes[cur as int].distance, cur,
    {
        let node = nodes[cur];
        let ghost old_tail = tail;
        let ghost old_back = back@;
        back.push(node.pos);
        proof {
            tail = seq![node.pos] + old_tail;
            assert forall|j: int| 0 <= j < tail.len() implies #[trigger] tail[j] == back[back.len() - 1 - j] by {
                if j > 0 {
                    assert(tail[j] == old_tail[j - 1]);
                    assert(back[back.len() - 1 - j] == old_back[old_back.len() - 1 - (j - 1)]);
                }
            }
        }
        if cur == 0 {
            proof {
                assert(seq![node.pos] + old_tail =~= tail);
            }
            break ;
        }
        proof {
            assert(linked(nodes@, cur as int));
            assert(chain(nodes@, node.parent as int).push(node.pos) + old_tail =~= chain(
                nodes@,
                node.parent as int,
            ) + tail);
        }
        cur = node.parent;
    }
    let mut path: Vec<Cell> = Vec::new();
    let n = back.len();
    let mut k: usize = 0;
    while k < n
        invariant
            k <= n,
            n == back.len(),
            path.len() == k,
            forall|j: int| 0 <= j < k ==> #[trigger] path[j] == back[n - 1 - j],
        decreases n - k,
    {
        path.push(back[n - 1 - k]);
        k += 1;
    }
    proof {
        assert(path@ =~= tail);
    }
    path
}

/// The way through the tree from the root to the first node at `end`, or the
/// root alone where no node lies there.
pub fn find_path(end: Cell, nodes: &Vec<Node>) -> (path: Vec<Cell>)
    requires
        well_linked(nodes@),
    ensures
        path@ == chain(nodes@, finish(nodes@, end)),
{
    proof {
        lemma_first_at(nodes@, end, nodes.len() as nat);
    }
    match locate(end, nodes) {
        Some(i) => trace(nodes, i),
        None => trace(nodes, 0),
    }
}

/// Once a node at the position is found, later nodes do not change the
/// answer.
proof fn lemma_first_at_stays(nodes: Seq<Node>, pos: Cell, n: nat, m: nat)
    requires
        n <= m,
        first_at(nodes, pos, n) is Some,
    ensures
        first_at(nodes, pos, m) == first_at(nodes, pos, n),
    decreases m - n,
{
    if n < m {
        lemma_first_at_stays(nodes, pos, n, (m - 1) as nat);
    }
}

/// The edges of the tree: each node's position with that of its parent.
pub fn tree_edges(nodes: &Vec<Node>) -> (edges: Vec<(Cell, Cell)>)
    requires
        well_linked(nodes@),
    ensures
        is_edges(nodes@, edges@),
{
    let mut edges: Vec<(Cell, Cell)> = Vec::new();
    let mut i: usize = 0;
    while i < nodes.len()
        invariant
            i <= nodes.len(),
            well_linked(nodes@),
            edges.len() == i,
            forall|j: int| 0 <= j < i ==> #[trigger] edges[j] == edge_of(nodes@, j),
        decreases nodes.len() - i,
    {
        let node = nodes[i];
        proof {
            if i > 0 {
                assert(linked(nodes@, i as int));
            }
        }
        let parent = nodes[node.parent];
        edges.push((node.pos, parent.pos));
        i += 1;
    }
    edges
}

/// The edge that joins the node `i` to its parent.
pub open spec fn edge_of(nodes: Seq<Node>, i: int) -> (Cell, Cell) {
    (nodes[i].pos, nodes[nodes[i].parent as int].pos)
}

/// Whether `edges` holds the edge of every node, in order.
pub open spec fn is_edges(nodes: Seq<Node>, edges: Seq<(Cell, Cell)>) -> bool {
    edges.len() == nodes.len() && forall|i: int| 0 <= i < nodes.len() ==> #[trigger] edges[i] == edge_of(nodes, i)
}

/// What a tree yields: its edges, and the way to the first node on the goal
/// where there is one, else the root alone.
pub open spec fn tree_result(goal: Cell, nodes: Seq<Node>, res: &TreeResult) -> bool {
    &&& is_edges(nodes, res.tree@)
    &&& match first_at(nodes, goal, nodes.len()) {
        Some(i) => res.outcome == Outcome::Found && res.path@ == chain(nodes, i as int),
        None => res.outcome == Outcome::ResourceExhausted && res.path@ == chain(nodes, 0),
    }
}

/// The number of nodes up to which a tree grows: the node budget, or no
/// growth at all where the start is the goal.
pub open spec fn most_nodes(grid: &OccupancyGrid, cfg: &TreeConfig, start: Cell, goal: Cell) -> nat {
    if start == goal {
        0
    } else {
        budget(cfg, grid.area())
    }
}

/// Whether a run accepts its input: start and goal are free cells and the
/// configuration is valid.
pub open spec fn accepted(grid: &OccupancyGrid, cfg: &TreeConfig, start: Cell, goal: Cell) -> bool {
    grid.free(start) && grid.free(goal) && cfg.valid()
}

/// What a planner has to return when the random targets are `targets`, one
/// after the other.
pub open spec fn replayed(
    grid: &OccupancyGrid,
    start: Cell,
    goal: Cell,
    cfg: &TreeConfig,
    star: bool,
    skip_goal: bool,
    targets: Seq<Cell>,
    res: &TreeResult,
) -> bool {
    if !accepted(grid, cfg, start, goal) {
        &&& res.outcome == Outcome::InvalidInput
        &&& res.path@ == Seq::<Cell>::empty()
        &&& res.tree@ == Seq::<(Cell, Cell)>::empty()
    } else {
        tree_result(
            goal,
            grow(grid, cfg, start, goal, targets, star, skip_goal, most_nodes(grid, cfg, start, goal)),
            res,
        )
    }
}

/// What a planner that draws its own targets has to return, `targets` being
/// what it drew: every target is a cell of the grid, each was drawn while the
/// tree was below its budget, and the run went on until the budget or the
/// sample limit was reached.
pub open spec fn planned(
    grid: &OccupancyGrid,
    start: Cell,
    goal: Cell,
    cfg: &TreeConfig,
    star: bool,
    skip_goal: bool,
    targets: Seq<Cell>,
    res: &TreeResult,
) -> bool {
    let most = most_nodes(grid, cfg, start, goal);
    &&& replayed(grid, start, goal, cfg, star, skip_goal, targets, res)
    &&& !accepted(grid, cfg, start, goal) ==> targets.len() == 0
    &&& accepted(grid, cfg, start, goal) ==> {
        &&& targets.len() <= cfg.sample_limit
        &&& forall|k: int| 0 <= k < targets.len() ==> grid.has(#[trigger] targets[k])
        &&& forall|k: int|
            0 <= k < targets.len() ==> (#[trigger] grow(
                grid,
                cfg,
                start,
                goal,
                targets.take(k),
                star,
                skip_goal,
                most,
            )).len() < most
        &&& grow(grid, cfg, start, goal, targets, star, skip_goal, most).len() >= most || targets.len()
            == cfg.sample_limit
    }
}

/// The way from the root to a node of a sound tree starts at the root, ends
/// at the node and passes free cells alone.
proof fn lemma_chain_placed(grid: &OccupancyGrid, nodes: Seq<Node>, i: int)
    requires
        placed(grid, nodes),
        well_linked(nodes),
        0 <= i < nodes.len(),
    ensures
        path_free(grid, chain(nodes, i)),
        chain(nodes, i).len() >= 1,
        chain(nodes, i)[0] == nodes[0].pos,
        chain(nodes, i).last() == nodes[i].pos,
    decreases nodes[i].distance, i,
{
    if i > 0 {
        assert(linked(nodes, i));
        let p = nodes[i].parent as int;
        lemma_chain_placed(grid, nodes, p);
        let front = chain(nodes, p);
        let path = front.push(nodes[i].pos);
        assert forall|j: int| 0 <= j < path.len() implies grid.free(#[trigger] path[j]) by {
            if j < front.len() {
                assert(path[j] == front[j]);
            }
        }
        assert(path[0] == front[0]);
    }
}

/// What the result of a run is worth: its path runs over free cells alone;
/// unless the input was refused it starts at the start, and where the goal
/// was reached it ends at the goal; and every edge of the tree joins two free
/// cells between which the way was found clear, unless the node was set on
/// the goal.
pub open spec fn tree_sound(grid: &OccupancyGrid, start: Cell, goal: Cell, res: &TreeResult) -> bool {
    &&& path_free(grid, res.path@)
    &&& res.outcome != Outcome::InvalidInput ==> res.path@.len() >= 1 && res.path@[0] == start
    &&& res.outcome == Outcome::Found ==> res.path@.last() == goal
    &&& forall|i: int|
        0 <= i < res.tree@.len() ==> grid.free((#[trigger] res.tree@[i]).0) && grid.free(res.tree@[i].1)
            && sighted(grid, goal, res.tree@[i].1, res.tree@[i].0)
}

/// The node budget of a run.
fn node_budget(grid: &OccupancyGrid, cfg: &TreeConfig) -> (most: usize)
    requires
        cfg.valid(),
    ensures
        most == budget(cfg, grid.area()),
        most <= MAX_NODES,
{
    let by_area = grid.size() / (cfg.step_distance as usize);
    let cap = if cfg.max_nodes < MAX_NODES {
        cfg.max_nodes
    } else {
        MAX_NODES
    };
    if by_area < cap {
        by_area
    } else {
        cap
    }
}

/// Reads the result off a tree.
fn conclude(grid: &OccupancyGrid, start: Cell, goal: Cell, nodes: &Vec<Node>, star: bool) -> (res:
    TreeResult)
    requires
        tree_ok(grid, goal, nodes@, star),
        nodes@[0].pos == start,
    ensures
        tree_result(goal, nodes@, &res),
        tree_sound(grid, start, goal, &res),
        res.outcome != Outcome::InvalidInput,
{
    proof {
        lemma_tree_ok(grid, goal, nodes@, star);
        lemma_first_at(nodes@, goal, nodes.len() as nat);
    }
    let tree = tree_edges(nodes);
    proof {
        assert forall|i: int| 0 <= i < tree@.len() implies grid.free((#[trigger] tree@[i]).0) && grid.free(
            tree@[i].1,
        ) && sighted(grid, goal, tree@[i].1, tree@[i].0) by {
            assert(tree@[i] == edge_of(nodes@, i));
            assert(grid.free(nodes@[i].pos));
            if i > 0 {
                assert(linked(nodes@, i));
            }
            assert(grid.free(nodes@[nodes@[i].parent as int].pos));
            assert(sighted(grid, goal, nodes@[nodes@[i].parent as int].pos, nodes@[i].pos));
        }
    }
    match locate(goal, nodes) {
        Some(i) => {
            proof {
                lemma_chain_placed(grid, nodes@, i as int);
            }
            TreeResult { path: trace(nodes, i), tree, outcome: Outcome::Found }
        },
        None => {
            proof {
                lemma_chain_placed(grid, nodes@, 0);
            }
            TreeResult { path: trace(nodes, 0), tree, outcome: Outcome::ResourceExhausted }
        },
    }
}

/// The tree that holds the start alone is sound.
proof fn lemma_seed_ok(grid: &OccupancyGrid, start: Cell, goal: Cell, star: bool)
    requires
        grid.free(start),
    ensures
        tree_ok(grid, goal, seq![Node { pos: start, parent: 0, distance: 0 }], star),
{
    reveal(tree_ok);
}

/// `rand`'s standard generator `rand::rngs::StdRng`. The library hands it on
/// to `draw_below` and never looks inside.
#[verifier::external_type_specification]
#[verifier::external_body]
pub struct ExStdRng(rand::rngs::StdRng);

/// A random number below `bound` from `rand`'s `Rng::gen_range`, called on
/// the range from 0 up to and without `bound`. `gen_range` panics on an empty
/// range, so `bound` has to be positive; all that is claimed of the number is
/// that it lies in the range.
#[verifier::external_body]
fn draw_below(rng: &mut StdRng, bound: usize) -> (r: usize)
    requires
        bound > 0,
    ensures
        r < bound,
{
    rng.gen_range(0..bound)
}

/// Plans with a tree that grows towards random targets drawn from `rng`.
///
/// The tree starts with the start as its root. While it holds fewer nodes
/// than its budget and fewer targets than the sample limit have been drawn,
/// a cell of the grid is drawn and the tree grows towards it. The run ends as
/// `Found` where a node lies on the goal, with the way from the start to the
/// first such node, and as `ResourceExhausted` else, with the start alone.
/// With `star` new nodes hang below their best parent and the tree is
/// rewired around them; with `skip_goal` nodes on the goal do not grow.
pub fn plan_tree(
    grid: &OccupancyGrid,
    start: Cell,
    end: Cell,
    cfg: &TreeConfig,
    rng: &mut StdRng,
    star: bool,
    skip_goal: bool,
) -> (res: TreeResult)
    ensures
        exists|targets: Seq<Cell>| planned(grid, start, end, cfg, star, skip_goal, targets, &res),
        tree_sound(grid, start, end, &res),
{
    let goal = end;
    if grid.is_blocked(start) || grid.is_blocked(goal) || !cfg.is_valid() {
        let res = TreeResult { path: Vec::new(), tree: Vec::new(), outcome: Outcome::InvalidInput };
        proof {
            assert(planned(grid, start, goal, cfg, star, skip_goal, Seq::<Cell>::empty(), &res));
        }
        return res;
    }
    let most: usize = if same_cell(start, goal) {
        0
    } else {
        node_budget(grid, cfg)
    };
    let rows = grid.rows();
    let cols = grid.cols();
    let mut nodes: Vec<Node> = Vec::new();
    nodes.push(Node { pos: start, parent: 0, distance: 0 });
    let mut draws: usize = 0;
    let ghost mut targets: Seq<Cell> = Seq::empty();
    proof {
        lemma_seed_ok(grid, start, goal, star);
        assert(nodes@ =~= seq![Node { pos: start, parent: 0, distance: 0 }]);
    }
    while nodes.len() < most && draws < cfg.sample_limit
        invariant
            cfg.valid(),
            grid.free(goal),
            grid.free(start),
            rows == grid.spec_rows(),
            cols == grid.spec_cols(),
            most == most_nodes(grid, cfg, start, goal),
            most <= MAX_NODES,
            tree_ok(grid, goal, nodes@, star),
            nodes@[0].pos == start,
            nodes@ == grow(grid, cfg, start, goal, targets, star, skip_goal, most as nat),
            draws == targets.len(),
            draws <= cfg.sample_limit,
            forall|k: int| 0 <= k < targets.len() ==> grid.has(#[trigger] targets[k]),
            forall|k: int|
                0 <= k < targets.len() ==> (#[trigger] grow(
                    grid,
                    cfg,
                    start,
                    goal,
                    targets.take(k),
                    star,
                    skip_goal,
                    most as nat,
                )).len() < most,
        decreases cfg.sample_limit - draws,
    {
        let row = draw_below(rng, rows);
        let col = draw_below(rng, cols);
        let ghost drawn = targets;
        let ghost before = nodes@;
        extend_tree(grid, cfg, goal, &mut nodes, (row, col), star, skip_goal);
        proof {
            targets = drawn.push((row, col));
            assert(targets.drop_last() =~= drawn);
            assert forall|k: int| 0 <= k < targets.len() implies (#[trigger] grow(
                grid,
                cfg,
                start,
                goal,
                targets.take(k),
                star,
                skip_goal,
                most as nat,
            )).len() < most by {
                if k < drawn.len() {
                    assert(targets.take(k) =~= drawn.take(k));
                } else {
                    assert(targets.take(k) =~= drawn);
                }
            }
        }
        draws += 1;
    }
    let res = conclude(grid, start, goal, &nodes, star);
    proof {
        assert(planned(grid, start, goal, cfg, star, skip_goal, targets, &res));
    }
    res
}

/// Plans with a tree that grows towards the given targets, one after the
/// other, as long as it holds fewer nodes than its budget.
pub fn grow_tree(
    grid: &OccupancyGrid,
    start: Cell,
    end: Cell,
    cfg: &TreeConfig,
    targets: &Vec<Cell>,
    star: bool,
    skip_goal: bool,
) -> (res: TreeResult)
    ensures
        replayed(grid, start, end, cfg, star, skip_goal, targets@, &res),
        tree_sound(grid, start, end, &res),
{
    let goal = end;
    if grid.is_blocked(start) || grid.is_blocked(goal) || !cfg.is_valid() {
        return TreeResult { path: Vec::new(), tree: Vec::new(), outcome: Outcome::InvalidInput };
    }
    let most: usize = if same_cell(start, goal) {
        0
    } else {
        node_budget(grid, cfg)
    };
    let mut nodes: Vec<Node> = Vec::new();
    nodes.push(Node { pos: start, parent: 0, distance: 0 });
    let mut i: usize = 0;
    proof {
        lemma_seed_ok(grid, start, goal, star);
        assert(nodes@ =~= seq![Node { pos: start, parent: 0, distance: 0 }]);
        assert(targets@.take(0) =~= Seq::<Cell>::empty());
    }
    while i < targets.len()
        invariant
            i <= targets.len(),
            cfg.valid(),
            grid.free(goal),
            most == most_nodes(grid, cfg, start, goal),
            most <= MAX_NODES,
            tree_ok(grid, goal, nodes@, star),
            nodes@[0].pos == start,
            nodes@ == grow(grid, cfg, start, goal, targets@.take(i as int), star, skip_goal, most as nat),
        decreases targets.len() - i,
    {
        proof {
            assert(targets@.take(i + 1).drop_last() =~= targets@.take(i as int));
            assert(targets@.take(i + 1).last() == targets[i as int]);
        }
        if nodes.len() < most {
            extend_tree(grid, cfg, goal, &mut nodes, targets[i], star, skip_goal);
        }
        i += 1;
    }
    proof {
        assert(targets@.take(targets.len() as int) =~= targets@);
    }
    conclude(grid, start, goal, &nodes, star)
}

/// Plans with a rapidly-exploring random tree: each new node hangs below the
/// node it grew from.
pub fn rrt_v1(grid: &OccupancyGrid, start: Cell, end: Cell, cfg: &TreeConfig, rng: &mut StdRng) -> (res:
    TreeResult)
    ensures
        exists|targets: Seq<Cell>| planned(grid, start, end, cfg, false, true, targets, &res),
        tree_sound(grid, start, end, &res),
{
    plan_tree(grid, start, end, cfg, rng, false, true)
}

/// Plans with a rapidly-exploring random tree that keeps the ways from the
/// root short: each new node hangs below its best parent, and the nodes
/// around it are rewired.
pub fn rrt_v2(grid: &OccupancyGrid, start: Cell, end: Cell, cfg: &TreeConfig, rng: &mut StdRng) -> (res:
    TreeResult)
    ensures
        exists|targets: Seq<Cell>| planned(grid, start, end, cfg, true, true, targets, &res),
        tree_sound(grid, start, end, &res),
{
    plan_tree(grid, start, end, cfg, rng, true, true)
}

/// One target adds at most one node.
proof fn lemma_extend_len(
    grid: &OccupancyGrid,
    cfg: &TreeConfig,
    goal: Cell,
    nodes: Seq<Node>,
    target: Cell,
    star: bool,
    skip_goal: bool,
)
    ensures
        nodes.len() <= extend(grid, cfg, goal, nodes, target, star, skip_goal).len() <= nodes.len() + 1,
{
}

/// A tree holds its root, and never more nodes than its budget allows: at
/// most `most`, or the root alone where `most` is 0.
pub proof fn lemma_grow_within_budget(
    grid: &OccupancyGrid,
    cfg: &TreeConfig,
    start: Cell,
    goal: Cell,
    targets: Seq<Cell>,
    star: bool,
    skip_goal: bool,
    most: nat,
)
    ensures
        grow(grid, cfg, start, goal, targets, star, skip_goal, most).len() >= 1,
        grow(grid, cfg, start, goal, targets, star, skip_goal, most).len() <= most || grow(
            grid,
            cfg,
            start,
            goal,
            targets,
            star,
            skip_goal,
            most,
        ).len() == 1,
    decreases targets.len(),
{
    if targets.len() > 0 {
        lemma_grow_within_budget(grid, cfg, start, goal, targets.drop_last(), star, skip_goal, most);
        let before = grow(grid, cfg, start, goal, targets.drop_last(), star, skip_goal, most);
        lemma_extend_len(grid, cfg, goal, before, targets.last(), star, skip_goal);
    }
}

/// A run is a function of its input and its random targets: whatever two
/// runs on the same grid, start, goal and configuration return for the same
/// targets, they report the same outcome, the same path and the same tree.
pub proof fn lemma_replay_determined(
    grid: &OccupancyGrid,
    start: Cell,
    goal: Cell,
    cfg: &TreeConfig,
    star: bool,
    skip_goal: bool,
    targets: Seq<Cell>,
    a: &TreeResult,
    b: &TreeResult,
)
    requires
        replayed(grid, start, goal, cfg, star, skip_goal, targets, a),
        replayed(grid, start, goal, cfg, star, skip_goal, targets, b),
    ensures
        a.outcome == b.outcome,
        a.path@ == b.path@,
        a.tree@ == b.tree@,
{
    assert(a.tree@ =~= b.tree@);
}

/// Where start and goal are the same free cell, a run draws no target and
/// finds the path that holds this cell alone.
pub proof fn lemma_start_is_goal(
    grid: &OccupancyGrid,
    cell: Cell,
    cfg: &TreeConfig,
    star: bool,
    skip_goal: bool,
    targets: Seq<Cell>,
    res: &TreeResult,
)
    requires
        grid.free(cell),
        cfg.valid(),
        planned(grid, cell, cell, cfg, star, skip_goal, targets, res),
    ensures
        targets.len() == 0,
        res.outcome == Outcome::Found,
        res.path@ == seq![cell],
        res.tree@ == seq![(cell, cell)],
{
    if targets.len() > 0 {
        let first = grow(grid, cfg, cell, cell, targets.take(0), star, skip_goal, 0);
        assert(first.len() < 0);
    }
    let nodes = grow(grid, cfg, cell, cell, targets, star, skip_goal, 0);
    assert(nodes == seq![Node { pos: cell, parent: 0, distance: 0 }]);
    assert(first_at(nodes, cell, 0) is None);
    assert(first_at(nodes, cell, 1) == Some(0usize));
    assert(chain(nodes, 0) =~= seq![cell]);
    assert(res.tree@ =~= seq![(cell, cell)]);
}

/// With a node budget of at most 1 and a goal other than the start, a run
/// draws no target, never reaches the goal and returns the start alone.
pub proof fn lemma_budget_of_one(
    grid: &OccupancyGrid,
    start: Cell,
    goal: Cell,
    cfg: &TreeConfig,
    star: bool,
    skip_goal: bool,
    targets: Seq<Cell>,
    res: &TreeResult,
)
    requires
        accepted(grid, cfg, start, goal),
        start != goal,
        budget(cfg, grid.area()) <= 1,
        planned(grid, start, goal, cfg, star, skip_goal, targets, res),
    ensures
        targets.len() == 0,
        res.outcome == Outcome::ResourceExhausted,
        res.path@ == seq![start],
        res.tree@ == seq![(start, start)],
{
    let most = budget(cfg, grid.area());
    if targets.len() > 0 {
        let first = grow(grid, cfg, start, goal, targets.take(0), star, skip_goal, most);
        lemma_grow_within_budget(grid, cfg, start, goal, targets.take(0), star, skip_goal, most);
        assert(first.len() < most);
    }
    let nodes = grow(grid, cfg, start, goal, targets, star, skip_goal, most);
    assert(nodes == seq![Node { pos: start, parent: 0, distance: 0 }]);
    assert(first_at(nodes, goal, 0) is None);
    assert(first_at(nodes, goal, 1) is None);
    assert(chain(nodes, 0) =~= seq![start]);
    assert(res.tree@ =~= seq![(start, start)]);
}

} // verus!
