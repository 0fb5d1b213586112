//! The random tree planner in its first form: nodes on the goal keep
//! growing, and the tree comes back as flat edges.

use crate::grid::{Cell, OccupancyGrid};
use crate::plan::{path_free, Outcome};
use crate::tree::{plan_tree, planned, TreeConfig, TreeResult};
use rand::rngs::StdRng;
use vstd::prelude::*;

verus! {

/// Whether `flat` holds the edges of `tree` as `(row, col, parent row, parent
/// col)`, in order.
pub open spec fn flattened(tree: Seq<(Cell, Cell)>, flat: Seq<(usize, usize, usize, usize)>) -> bool {
    flat.len() == tree.len() && forall|i: int|
        0 <= i < tree.len() ==> #[trigger] flat[i] == (tree[i].0.0, tree[i].0.1, tree[i].1.0, tree[i].1.1)
}

/// Plans with a rapidly-exploring random tree in which every node grows,
/// those on the goal too. Returns the path, the edges of the tree as
/// `(row, col, parent row, parent col)`, and how the run ended.
pub fn v1(grid: &OccupancyGrid, start: Cell, end: Cell, cfg: &TreeConfig, rng: &mut StdRng) -> (r: (
    Vec<(usize, usize)>,
    Vec<(usize, usize, usize, usize)>,
    Outcome,
))
    ensures
        exists|targets: Seq<Cell>, res: TreeResult|
            #![trigger planned(grid, start, end, cfg, false, false, targets, &res)]
            planned(grid, start, end, cfg, false, false, targets, &res) && r.0@ == res.path@ && r.2
                == res.outcome && flattened(res.tree@, r.1@),
        path_free(grid, r.0@),
        r.2 != Outcome::InvalidInput ==> r.0@.len() >= 1 && r.0@[0] == start,
        r.2 == Outcome::Found ==> r.0@.last() == end,
{
    let res = plan_tree(grid, start, end, cfg, rng, false, false);
    let mut flat: Vec<(usize, usize, usize, usize)> = Vec::new();
    let mut i: usize = 0;
    while i < res.tree.len()
        invariant
            i <= res.tree.len(),
            flat.len() == i,
            forall|j: int|
                0 <= j < i ==> #[trigger] flat[j] == (
                    res.tree[j].0.0,
                    res.tree[j].0.1,
                    res.tree[j].1.0,
                    res.tree[j].1.1,
                ),
        decreases res.tree.len() - i,
    {
        let edge = res.tree[i];
        flat.push((edge.0.0, edge.0.1, edge.1.0, edge.1.1));
        i += 1;
    }
    let outcome = res.outcome;
    proof {
        let targets = choose|targets: Seq<Cell>| planned(grid, start, end, cfg, false, false, targets, &res);
        assert(planned(grid, start, end, cfg, false, false, targets, &res) && res.path@ == res.path@
            && flattened(res.tree@, flat@));
    }
    (res.path, flat, outcome)
}

} // verus!
