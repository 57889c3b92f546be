//! Intruder path prediction: goal selection and A* search.
//!
//! The search runs on the 4-connected planning grid with the threat map as
//! node cost. A cell whose cost is the largest `u32` value is impassable.
//! The search records, for every discovered cell, the cell it was entered
//! from; a path is read back by walking those parent links from the goal
//! to the start.

use vstd::prelude::*;
use crate::grid::GridDims;
use crate::grid::GridNode;
use crate::grid::spec_in_bounds;
use crate::grid::spec_manhattan;
use crate::grid::get_neighbors;
use crate::grid::is_valid_grid_position;
use crate::grid::manhattan_distance;

verus! {

/// Cell cost that marks a cell as impassable.
pub const COST_BLOCKED: u32 = u32::MAX;

/// Result of one search: the path from start to goal (empty when none was
/// found), the sum of the costs of the cells entered after the start, and
/// whether a path was found.
pub struct PathResult {
    pub path: Vec<GridNode>,
    pub cost: u64,
    pub found: bool,
}

impl PathResult {
    /// An unsuccessful result carries an empty path and zero cost.
    pub open spec fn spec_wf(self) -> bool {
        !self.found ==> self.path@.len() == 0 && self.cost == 0
    }

    pub fn new(path: Vec<GridNode>, cost: u64, found: bool) -> (result: PathResult)
        requires
            found || (path@.len() == 0 && cost == 0),
        ensures
            result.path == path,
            result.cost == cost,
            result.found == found,
            result.spec_wf(),
    {
        PathResult { path, cost, found }
    }
}

/// Flat row-major index of a cell.
pub open spec fn spec_cell_index(node: GridNode, dims: GridDims) -> int {
    node.row * dims.width + node.col
}

/// The flat index of an on-grid cell is in range, and distinct cells have
/// distinct indices.
pub proof fn lemma_cell_index_inj(a: GridNode, b: GridNode, dims: GridDims)
    requires
        spec_in_bounds(a, dims),
        spec_in_bounds(b, dims),
    ensures
        0 <= spec_cell_index(a, dims) < dims.height * dims.width,
        spec_cell_index(a, dims) == spec_cell_index(b, dims) ==> a == b,
{
    assert(a.row * dims.width + a.col < dims.height * dims.width) by (nonlinear_arith)
        requires
            a.row < dims.height,
            a.col < dims.width,
            0 <= a.row,
            0 <= a.col,
    ;
    assert(a.row * dims.width + a.col == b.row * dims.width + b.col
        ==> a.row == b.row && a.col == b.col) by (nonlinear_arith)
        requires
            a.col < dims.width,
            b.col < dims.width,
            0 <= a.col,
            0 <= b.col,
    ;
}

/// Flat row-major index of an on-grid cell.
fn cell_index(node: &GridNode, dims: &GridDims) -> (i: usize)
    requires
        spec_in_bounds(*node, *dims),
        dims.height * dims.width <= usize::MAX,
    ensures
        i == spec_cell_index(*node, *dims),
{
    proof {
        lemma_cell_index_inj(*node, *node, *dims);
    }
    node.row * dims.width + node.col
}

/// Parent links of a search, one optional entry per grid cell, row-major.
pub struct ParentMap {
    pub dims: GridDims,
    pub entries: Vec<Option<GridNode>>,
}

impl ParentMap {
    /// One entry per cell of the grid.
    pub open spec fn spec_wf(self) -> bool {
        &&& self.entries@.len() == self.dims.height * self.dims.width
        &&& self.dims.height * self.dims.width <= usize::MAX
    }

    /// The recorded parent of a cell, if any.
    pub open spec fn spec_parent(self, node: GridNode) -> Option<GridNode> {
        self.entries@[spec_cell_index(node, self.dims)]
    }

    /// The walk from the root of `node`'s parent links down to `node`,
    /// if it closes within `fuel` steps: the sequence ends at `node`,
    /// starts at a cell without a parent, and every step follows one
    /// parent link. `None` when the walk leaves the grid or does not
    /// close within `fuel` steps.
    pub open spec fn spec_chain(self, node: GridNode, fuel: nat) -> Option<Seq<GridNode>>
        decreases fuel,
    {
        if fuel == 0 {
            None
        } else if !spec_in_bounds(node, self.dims) {
            None
        } else {
            match self.spec_parent(node) {
                None => Some(seq![node]),
                Some(p) => match self.spec_chain(p, (fuel - 1) as nat) {
                    None => None,
                    Some(s) => Some(s.push(node)),
                },
            }
        }
    }

    /// The parent links above `node` reach a root.
    pub open spec fn spec_has_chain(self, node: GridNode) -> bool {
        exists|fuel: nat| self.spec_chain(node, fuel) is Some
    }

    /// The walk from the root down to `node` (meaningful when
    /// `spec_has_chain` holds; the same sequence for every sufficient
    /// fuel).
    pub open spec fn spec_chain_seq(self, node: GridNode) -> Seq<GridNode> {
        self.spec_chain(node, choose|fuel: nat| self.spec_chain(node, fuel) is Some).unwrap()
    }

    /// A parent map over the given grid with no links yet.
    pub fn new(dims: &GridDims) -> (pm: ParentMap)
        requires
            dims.height * dims.width <= usize::MAX,
        ensures
            pm.spec_wf(),
            pm.dims == *dims,
            forall|c: GridNode| spec_in_bounds(c, *dims) ==> pm.spec_parent(c) is None,
    {
        let total: usize = dims.height * dims.width;
        let entries: Vec<Option<GridNode>> = vec![None; total];
        let pm = ParentMap { dims: *dims, entries };
        proof {
            assert forall|c: GridNode| spec_in_bounds(c, *dims)
                implies pm.spec_parent(c) is None by {
                lemma_cell_index_inj(c, c, *dims);
            }
        }
        pm
    }

    /// The recorded parent of `node`, if any.
    pub fn get_parent(&self, node: &GridNode) -> (p: Option<GridNode>)
        requires
            self.spec_wf(),
            spec_in_bounds(*node, self.dims),
        ensures
            p == self.spec_parent(*node),
    {
        proof {
            lemma_cell_index_inj(*node, *node, self.dims);
        }
        let i = cell_index(node, &self.dims);
        self.entries[i]
    }

    /// Record that `node` was entered from `parent`.
    pub fn set_parent(&mut self, node: &GridNode, parent: GridNode)
        requires
            old(self).spec_wf(),
            spec_in_bounds(*node, old(self).dims),
        ensures
            final(self).spec_wf(),
            final(self).dims == old(self).dims,
            final(self).spec_parent(*node) == Some(parent),
            forall|c: GridNode| spec_in_bounds(c, old(self).dims) && c != *node
                ==> final(self).spec_parent(c) == old(self).spec_parent(c),
            final(self).entries@ == old(self).entries@.update(
                spec_cell_index(*node, old(self).dims), Some(parent)),
    {
        proof {
            lemma_cell_index_inj(*node, *node, self.dims);
        }
        let i = cell_index(node, &self.dims);
        self.entries.set(i, Some(parent));
        proof {
            assert forall|c: GridNode| spec_in_bounds(c, self.dims) && c != *node
                implies self.spec_parent(c) == old(self).spec_parent(c) by {
                lemma_cell_index_inj(c, *node, self.dims);
            }
        }
    }
}

/// A walk that closes within some fuel closes, with the same sequence, for
/// any larger fuel.
pub proof fn lemma_chain_monotone(pm: ParentMap, node: GridNode, f1: nat, f2: nat)
    requires
        f1 <= f2,
        pm.spec_chain(node, f1) is Some,
    ensures
        pm.spec_chain(node, f2) == pm.spec_chain(node, f1),
    decreases f1,
{
    if pm.spec_parent(node) is Some {
        let p = pm.spec_parent(node).unwrap();
        lemma_chain_monotone(pm, p, (f1 - 1) as nat, (f2 - 1) as nat);
    }
}

/// Whenever the walk closes, it yields `spec_chain_seq`.
pub proof fn lemma_chain_seq_agrees(pm: ParentMap, node: GridNode, fuel: nat)
    requires
        pm.spec_chain(node, fuel) is Some,
    ensures
        pm.spec_chain(node, fuel) == Some(pm.spec_chain_seq(node)),
{
    let f0 = choose|f: nat| pm.spec_chain(node, f) is Some;
    if f0 <= fuel {
        lemma_chain_monotone(pm, node, f0, fuel);
    } else {
        lemma_chain_monotone(pm, node, fuel, f0);
    }
}

/// Shape of a closed walk: it ends at `node`, begins at a parentless cell,
/// follows one parent link per step, and stays on the grid.
pub proof fn lemma_chain_shape(pm: ParentMap, node: GridNode, fuel: nat)
    requires
        pm.spec_chain(node, fuel) is Some,
    ensures
        ({
            let s = pm.spec_chain(node, fuel).unwrap();
            &&& s.len() >= 1
            &&& s.last() == node
            &&& pm.spec_parent(s[0]) is None
            &&& forall|i: int| 0 <= i < s.len() ==> spec_in_bounds(#[trigger] s[i], pm.dims)
            &&& forall|i: int| 1 <= i < s.len()
                ==> pm.spec_parent(#[trigger] s[i]) == Some(s[i - 1])
        }),
    decreases fuel,
{
    match pm.spec_parent(node) {
        None => {},
        Some(p) => {
            lemma_chain_shape(pm, p, (fuel - 1) as nat);
        },
    }
}

/// Updating the parent of a cell that a closed walk never visits leaves
/// that walk unchanged.
pub proof fn lemma_chain_frame(pm1: ParentMap, pm2: ParentMap, node: GridNode, changed: GridNode, fuel: nat)
    requires
        pm1.spec_wf(),
        pm2.dims == pm1.dims,
        spec_in_bounds(changed, pm1.dims),
        pm2.entries@.len() == pm1.entries@.len(),
        forall|i: int| 0 <= i < pm1.entries@.len() && i != spec_cell_index(changed, pm1.dims)
            ==> pm2.entries@[i] == pm1.entries@[i],
        pm1.spec_chain(node, fuel) is Some,
        !pm1.spec_chain(node, fuel).unwrap().contains(changed),
    ensures
        pm2.spec_chain(node, fuel) == pm1.spec_chain(node, fuel),
    decreases fuel,
{
    let s = pm1.spec_chain(node, fuel).unwrap();
    assert(s.last() == node) by {
        lemma_chain_shape(pm1, node, fuel);
    }
    assert(node != changed) by {
        assert(s[s.len() - 1] == node);
    }
    assert(spec_in_bounds(node, pm1.dims));
    assert(pm2.spec_parent(node) == pm1.spec_parent(node)) by {
        lemma_cell_index_inj(node, changed, pm1.dims);
    }
    match pm1.spec_parent(node) {
        None => {},
        Some(p) => {
            let sp = pm1.spec_chain(p, (fuel - 1) as nat).unwrap();
            assert(!sp.contains(changed)) by {
                if sp.contains(changed) {
                    let k = choose|k: int| 0 <= k < sp.len() && sp[k] == changed;
                    assert(s[k] == changed);
                }
            }
            lemma_chain_frame(pm1, pm2, p, changed, (fuel - 1) as nat);
        },
    }
}

/// Read the path back from the parent links: the walk from the root of
/// `goal`'s links (the search start) down to `goal`, in start-to-goal
/// order.
pub fn reconstruct_path(goal: &GridNode, came_from: &ParentMap) -> (path: Vec<GridNode>)
    requires
        came_from.spec_wf(),
        spec_in_bounds(*goal, came_from.dims),
        came_from.spec_has_chain(*goal),
    ensures
        path@ == came_from.spec_chain_seq(*goal),
{
    let ghost full: Seq<GridNode> = came_from.spec_chain_seq(*goal);
    let ghost mut fuel: nat = choose|f: nat| came_from.spec_chain(*goal, f) is Some;
    proof {
        lemma_chain_seq_agrees(*came_from, *goal, fuel);
    }
    let mut reversed: Vec<GridNode> = Vec::new();
    let mut current: GridNode = *goal;
    reversed.push(current);
    loop
        invariant
            came_from.spec_wf(),
            spec_in_bounds(current, came_from.dims),
            came_from.spec_chain(current, fuel) is Some,
            reversed@.len() >= 1,
            reversed@.last() == current,
            full == came_from.spec_chain_seq(*goal),
            full == came_from.spec_chain(current, fuel).unwrap()
                + reversed@.reverse().drop_first(),
        decreases fuel,
    {
        match came_from.get_parent(&current) {
            None => {
                proof {
                    assert(came_from.spec_chain(current, fuel).unwrap() =~= seq![current]);
                    assert(full =~= reversed@.reverse());
                }
                let mut path: Vec<GridNode> = Vec::new();
                let mut i: usize = reversed.len();
                while i > 0
                    invariant
                        i <= reversed@.len(),
                        path@.len() == reversed@.len() - i,
                        forall|k: int| 0 <= k < path@.len()
                            ==> path@[k] == reversed@[reversed@.len() - 1 - k],
                    decreases i,
                {
                    i = i - 1;
                    path.push(reversed[i]);
                }
                proof {
                    assert(path@ =~= reversed@.reverse());
                }
                return path;
            },
            Some(p) => {
                proof {
                    assert(spec_in_bounds(p, came_from.dims));
                    let pre = came_from.spec_chain(p, (fuel - 1) as nat).unwrap();
                    assert(came_from.spec_chain(current, fuel).unwrap() == pre.push(current));
                    assert(pre + (reversed@.push(p)).reverse().drop_first()
                        =~= pre.push(current) + reversed@.reverse().drop_first());
                }
                reversed.push(p);
                current = p;
                proof {
                    fuel = (fuel - 1) as nat;
                }
            },
        }
    }
}


/// Cost of one cell in a threat map.
pub open spec fn spec_cell_cost(map: Seq<Vec<u32>>, node: GridNode) -> u32 {
    map[node.row as int]@[node.col as int]
}

/// A cell the search may enter.
pub open spec fn spec_passable(map: Seq<Vec<u32>>, node: GridNode) -> bool {
    spec_cell_cost(map, node) != COST_BLOCKED
}

/// Index of the cheapest cell among the first `n` candidates; the earliest
/// one when several share the lowest cost.
pub open spec fn spec_best_index(cands: Seq<GridNode>, map: Seq<Vec<u32>>, n: int) -> int
    decreases n,
{
    if n <= 1 {
        0
    } else {
        let prev = spec_best_index(cands, map, n - 1);
        if spec_cell_cost(map, cands[n - 1]) < spec_cell_cost(map, cands[prev]) {
            n - 1
        } else {
            prev
        }
    }
}

/// The best index points at a cheapest candidate, and at the earliest of
/// the cheapest.
pub proof fn lemma_best_index_props(cands: Seq<GridNode>, map: Seq<Vec<u32>>, n: int)
    requires
        1 <= n <= cands.len(),
    ensures
        0 <= spec_best_index(cands, map, n) < n,
        forall|j: int| 0 <= j < n ==> spec_cell_cost(map, cands[spec_best_index(cands, map, n)])
            <= spec_cell_cost(map, #[trigger] cands[j]),
        forall|j: int| 0 <= j < spec_best_index(cands, map, n)
            ==> spec_cell_cost(map, #[trigger] cands[j])
                > spec_cell_cost(map, cands[spec_best_index(cands, map, n)]),
    decreases n,
{
    if n > 1 {
        lemma_best_index_props(cands, map, n - 1);
    }
}

/// Pick the goal cell among the candidate cells inside the protected zone:
/// the cheapest cell of the threat map, the earliest listed among equals.
/// `None` when there is no candidate.
pub fn select_goal_cell(
    candidates: &Vec<GridNode>,
    cost_map: &Vec<Vec<u32>>,
    dims: &GridDims,
) -> (best: Option<GridNode>)
    requires
        crate::threat::spec_map_shape(cost_map@, *dims),
        forall|i: int| 0 <= i < candidates@.len()
            ==> spec_in_bounds(#[trigger] candidates@[i], *dims),
    ensures
        best is Some <==> candidates@.len() > 0,
        candidates@.len() > 0 ==> best == Some(
            candidates@[spec_best_index(candidates@, cost_map@, candidates@.len() as int)]),
{
    if candidates.len() == 0 {
        return None;
    }
    let mut best_i: usize = 0;
    let mut i: usize = 1;
    while i < candidates.len()
        invariant
            crate::threat::spec_map_shape(cost_map@, *dims),
            forall|k: int| 0 <= k < candidates@.len()
                ==> spec_in_bounds(#[trigger] candidates@[k], *dims),
            1 <= i <= candidates@.len(),
            best_i < i,
            best_i == spec_best_index(candidates@, cost_map@, i as int),
        decreases candidates@.len() - i,
    {
        let cand = candidates[i];
        let incumbent = candidates[best_i];
        if cost_map[cand.row][cand.col] < cost_map[incumbent.row][incumbent.col] {
            best_i = i;
        }
        i = i + 1;
    }
    Some(candidates[best_i])
}

/// `p` is a walk on the grid from `a` to `b`: one cell per step, adjacent
/// steps one cell apart, every cell on the grid, and every cell after the
/// first passable.
pub open spec fn spec_is_path(
    p: Seq<GridNode>,
    a: GridNode,
    b: GridNode,
    map: Seq<Vec<u32>>,
    dims: GridDims,
) -> bool {
    &&& p.len() >= 1
    &&& p[0] == a
    &&& p.last() == b
    &&& forall|i: int| 0 <= i < p.len() ==> spec_in_bounds(#[trigger] p[i], dims)
    &&& forall|i: int| 1 <= i < p.len() ==> spec_manhattan(p[i - 1], #[trigger] p[i]) == 1
    &&& forall|i: int| 1 <= i < p.len() ==> spec_passable(map, #[trigger] p[i])
}

/// Cost of a walk: the sum of the costs of the cells entered after the
/// first.
pub open spec fn spec_path_cost(p: Seq<GridNode>, map: Seq<Vec<u32>>) -> int
    decreases p.len(),
{
    if p.len() <= 1 {
        0
    } else {
        spec_path_cost(p.drop_last(), map) + spec_cell_cost(map, p.last())
    }
}

/// Some walk joins `a` to `b`.
pub open spec fn spec_connected(
    a: GridNode,
    b: GridNode,
    map: Seq<Vec<u32>>,
    dims: GridDims,
) -> bool {
    exists|p: Seq<GridNode>| spec_is_path(p, a, b, map, dims)
}

/// Law: every walk spends at least the Manhattan distance in steps.
pub proof fn lemma_path_len_at_least_manhattan(
    p: Seq<GridNode>,
    a: GridNode,
    b: GridNode,
    map: Seq<Vec<u32>>,
    dims: GridDims,
)
    requires
        spec_is_path(p, a, b, map, dims),
    ensures
        p.len() >= spec_manhattan(a, b) + 1,
    decreases p.len(),
{
    if p.len() == 1 {
    } else {
        let q = p.drop_last();
        let c = p[p.len() - 2];
        assert(spec_is_path(q, a, c, map, dims));
        lemma_path_len_at_least_manhattan(q, a, c, map, dims);
        assert(spec_manhattan(a, b) <= spec_manhattan(a, c) + spec_manhattan(c, b));
    }
}

/// Law: on a threat map with no threat penalty every cell costs the base
/// cost, so a walk from `a` to `b` costs one base cost per step and at
/// least the Manhattan distance times the base cost.
pub proof fn lemma_uniform_cost_path_lower_bound(
    p: Seq<GridNode>,
    a: GridNode,
    b: GridNode,
    map: Seq<Vec<u32>>,
    dims: GridDims,
    base: u32,
)
    requires
        spec_is_path(p, a, b, map, dims),
        spec_uniform_map(map, dims, base),
    ensures
        spec_path_cost(p, map) == (p.len() - 1) * base,
        spec_path_cost(p, map) >= spec_manhattan(a, b) * base,
    decreases p.len(),
{
    if p.len() == 1 {
    } else {
        let q = p.drop_last();
        let c = p[p.len() - 2];
        assert(spec_is_path(q, a, c, map, dims));
        lemma_uniform_cost_path_lower_bound(q, a, c, map, dims, base);
        assert((q.len() - 1) * base + base == (p.len() - 1) * base) by (nonlinear_arith)
            requires q.len() + 1 == p.len(), q.len() >= 1;
    }
    lemma_path_len_at_least_manhattan(p, a, b, map, dims);
    assert(spec_manhattan(a, b) * base <= (p.len() - 1) * base) by (nonlinear_arith)
        requires 0 <= spec_manhattan(a, b) <= p.len() - 1, base >= 0;
}


/// Every on-grid cell costs at least one unit, so no step is free. Under
/// this premise the Manhattan heuristic never overestimates and the
/// search's result is cost-optimal.
pub open spec fn spec_costs_positive(map: Seq<Vec<u32>>, dims: GridDims) -> bool {
    forall|c: GridNode| spec_in_bounds(c, dims) ==> #[trigger] spec_cell_cost(map, c) >= 1
}

/// A walk's cost is never negative.
pub proof fn lemma_path_cost_nonneg(p: Seq<GridNode>, map: Seq<Vec<u32>>)
    ensures
        spec_path_cost(p, map) >= 0,
    decreases p.len(),
{
    if p.len() > 1 {
        lemma_path_cost_nonneg(p.drop_last(), map);
    }
}

/// Cost of one more step of a walk's prefix.
proof fn lemma_path_cost_take_step(p: Seq<GridNode>, j: int, map: Seq<Vec<u32>>)
    requires
        1 <= j < p.len(),
    ensures
        spec_path_cost(p.take(j + 1), map) == spec_path_cost(p.take(j), map)
            + spec_cell_cost(map, p[j]),
{
    assert(p.take(j + 1).drop_last() =~= p.take(j));
    assert(p.take(j + 1).last() == p[j]);
}

/// A prefix of a walk is a walk to its last cell.
proof fn lemma_prefix_is_path(
    p: Seq<GridNode>,
    j: int,
    a: GridNode,
    b: GridNode,
    map: Seq<Vec<u32>>,
    dims: GridDims,
)
    requires
        spec_is_path(p, a, b, map, dims),
        1 <= j <= p.len(),
    ensures
        spec_is_path(p.take(j), a, p[j - 1], map, dims),
{
}

/// When no step is free, the Manhattan distance from any cell of a walk to
/// a target exceeds the walk's remaining cost by at most the distance from
/// the walk's end to that target.
proof fn lemma_manhattan_chain(
    p: Seq<GridNode>,
    m: int,
    target: GridNode,
    a: GridNode,
    b: GridNode,
    map: Seq<Vec<u32>>,
    dims: GridDims,
)
    requires
        spec_is_path(p, a, b, map, dims),
        spec_costs_positive(map, dims),
        0 <= m < p.len(),
    ensures
        spec_manhattan(p[m], target) <= spec_path_cost(p, map)
            - spec_path_cost(p.take(m + 1), map) + spec_manhattan(p.last(), target),
    decreases p.len() - m,
{
    if m == p.len() - 1 {
        assert(p.take(m + 1) =~= p);
    } else {
        lemma_manhattan_chain(p, m + 1, target, a, b, map, dims);
        lemma_path_cost_take_step(p, m + 1, map);
        assert(spec_manhattan(p[m], target)
            <= spec_manhattan(p[m + 1], target) + spec_manhattan(p[m], p[m + 1]));
        assert(spec_cell_cost(map, p[m + 1]) >= 1);
    }
}

/// One enqueued cell of the search frontier, with the priority it was
/// enqueued at (its path cost so far plus the Manhattan heuristic).
#[derive(Clone, Copy)]
struct OpenEntry {
    node: GridNode,
    f: u64,
}

/// Number of cells not yet expanded.
spec fn spec_count_false(s: Seq<bool>) -> nat
    decreases s.len(),
{
    if s.len() == 0 {
        0
    } else {
        spec_count_false(s.drop_last()) + if s.last() { 0nat } else { 1nat }
    }
}

proof fn lemma_count_false_le_len(s: Seq<bool>)
    ensures
        spec_count_false(s) <= s.len(),
    decreases s.len(),
{
    if s.len() > 0 {
        lemma_count_false_le_len(s.drop_last());
    }
}

proof fn lemma_count_false_update(s: Seq<bool>, i: int)
    requires
        0 <= i < s.len(),
        !s[i],
    ensures
        spec_count_false(s.update(i, true)) == spec_count_false(s) - 1,
    decreases s.len(),
{
    if i == s.len() - 1 {
        assert(s.update(i, true).drop_last() =~= s.drop_last());
    } else {
        assert(s.update(i, true).drop_last() =~= s.drop_last().update(i, true));
        lemma_count_false_update(s.drop_last(), i);
    }
}

proof fn lemma_count_false_all(s: Seq<bool>)
    requires
        forall|i: int| 0 <= i < s.len() ==> !s[i],
    ensures
        spec_count_false(s) == s.len(),
    decreases s.len(),
{
    if s.len() > 0 {
        lemma_count_false_all(s.drop_last());
    }
}

/// The cell was expanded.
spec fn spec_closed_at(closed: Seq<bool>, c: GridNode, dims: GridDims) -> bool {
    closed[spec_cell_index(c, dims)]
}

/// The cell was discovered: a path cost is on record for it.
spec fn spec_g_defined(gval: Seq<Option<u64>>, c: GridNode, dims: GridDims) -> bool {
    gval[spec_cell_index(c, dims)] is Some
}

/// The recorded path cost of a discovered cell.
spec fn spec_g_at(gval: Seq<Option<u64>>, c: GridNode, dims: GridDims) -> u64 {
    gval[spec_cell_index(c, dims)].unwrap()
}

/// Fixed facts of one search: grid and map shapes, flat-array sizes, and
/// the start and goal cells on the grid.
spec fn inv_structure(
    closed: Seq<bool>,
    gval: Seq<Option<u64>>,
    pm: ParentMap,
    map: Seq<Vec<u32>>,
    dims: GridDims,
    start: GridNode,
    goal: GridNode,
) -> bool {
    &&& crate::threat::spec_map_shape(map, dims)
    &&& dims.height * dims.width <= 0x1000_0000
    &&& closed.len() == dims.height * dims.width
    &&& gval.len() == dims.height * dims.width
    &&& pm.spec_wf()
    &&& pm.dims == dims
    &&& spec_in_bounds(start, dims)
    &&& spec_in_bounds(goal, dims)
    &&& spec_g_defined(gval, start, dims)
    &&& spec_g_at(gval, start, dims) == 0
}

/// Every discovered cell closes a parent walk from the start, and its
/// recorded cost is the cost of that walk.
spec fn inv_chains(
    gval: Seq<Option<u64>>,
    pm: ParentMap,
    map: Seq<Vec<u32>>,
    dims: GridDims,
    start: GridNode,
    fuel: nat,
) -> bool {
    forall|c: GridNode| spec_in_bounds(c, dims) && #[trigger] spec_g_defined(gval, c, dims)
        ==> {
            let ch = pm.spec_chain(c, fuel);
            &&& ch is Some
            &&& ch.unwrap()[0] == start
            &&& spec_g_at(gval, c, dims) == spec_path_cost(ch.unwrap(), map)
        }
}

/// Recorded costs stay below one cell cost per expanded cell plus one:
/// `unexpanded` counts the cells not yet expanded.
spec fn inv_gbound_at(
    gval: Seq<Option<u64>>,
    dims: GridDims,
    unexpanded: nat,
) -> bool {
    forall|c: GridNode| spec_in_bounds(c, dims) && #[trigger] spec_g_defined(gval, c, dims)
        ==> spec_g_at(gval, c, dims)
            <= (dims.height * dims.width - unexpanded + 1) * (u32::MAX as int)
}

/// A parent link records an expanded cell one step away, and only
/// passable discovered cells carry one.
spec fn inv_parent_links(
    pm: ParentMap,
    closed: Seq<bool>,
    gval: Seq<Option<u64>>,
    map: Seq<Vec<u32>>,
    dims: GridDims,
) -> bool {
    forall|c: GridNode| spec_in_bounds(c, dims) && (#[trigger] pm.spec_parent(c)) is Some
        ==> {
            let p = pm.spec_parent(c).unwrap();
            &&& spec_g_defined(gval, c, dims)
            &&& spec_passable(map, c)
            &&& spec_in_bounds(p, dims)
            &&& spec_closed_at(closed, p, dims)
            &&& spec_manhattan(p, c) == 1
        }
}

/// Expanded cells were discovered first.
spec fn inv_closed_gdef(
    closed: Seq<bool>,
    gval: Seq<Option<u64>>,
    dims: GridDims,
) -> bool {
    forall|c: GridNode| spec_in_bounds(c, dims) && #[trigger] spec_closed_at(closed, c, dims)
        ==> spec_g_defined(gval, c, dims)
}

/// Every passable, unexpanded neighbour of an expanded cell was
/// discovered, at a cost of at most one step beyond the expanded cell's.
spec fn inv_relaxed(
    closed: Seq<bool>,
    gval: Seq<Option<u64>>,
    map: Seq<Vec<u32>>,
    dims: GridDims,
) -> bool {
    forall|c: GridNode, nb: GridNode|
        spec_in_bounds(c, dims) && spec_in_bounds(nb, dims)
            && #[trigger] spec_closed_at(closed, c, dims)
            && #[trigger] spec_manhattan(c, nb) == 1
            && spec_passable(map, nb)
            && !spec_closed_at(closed, nb, dims)
        ==> spec_g_defined(gval, nb, dims)
            && spec_g_at(gval, nb, dims)
                <= spec_g_at(gval, c, dims) + spec_cell_cost(map, nb)
}

/// Once a cell is expanded, its recorded cost undercuts every walk from
/// the start to it. (Kept only while no step of the map is free.)
spec fn inv_closed_opt(
    closed: Seq<bool>,
    gval: Seq<Option<u64>>,
    map: Seq<Vec<u32>>,
    dims: GridDims,
    start: GridNode,
) -> bool {
    forall|u: GridNode, p: Seq<GridNode>|
        spec_in_bounds(u, dims) && #[trigger] spec_closed_at(closed, u, dims)
            && #[trigger] spec_is_path(p, start, u, map, dims)
        ==> spec_g_at(gval, u, dims) <= spec_path_cost(p, map)
}

/// Frontier entries are on the grid and discovered, and none undercuts
/// its cell's recorded cost plus the heuristic.
spec fn inv_open_entries(
    open: Seq<OpenEntry>,
    gval: Seq<Option<u64>>,
    dims: GridDims,
    goal: GridNode,
) -> bool {
    forall|j: int| 0 <= j < open.len() ==> {
        &&& spec_in_bounds((#[trigger] open[j]).node, dims)
        &&& spec_g_defined(gval, open[j].node, dims)
        &&& open[j].f >= spec_g_at(gval, open[j].node, dims)
            + spec_manhattan(open[j].node, goal)
    }
}

/// Every discovered, unexpanded cell still waits on the frontier, with an
/// entry enqueued at exactly its current recorded cost plus the heuristic.
spec fn inv_open_witness(
    open: Seq<OpenEntry>,
    closed: Seq<bool>,
    gval: Seq<Option<u64>>,
    dims: GridDims,
    goal: GridNode,
) -> bool {
    forall|c: GridNode|
        spec_in_bounds(c, dims) && #[trigger] spec_g_defined(gval, c, dims)
            && !spec_closed_at(closed, c, dims)
        ==> exists|j: int| 0 <= j < open.len() && (#[trigger] open[j]).node == c
                && open[j].f == spec_g_at(gval, c, dims) + spec_manhattan(c, goal)
}

/// After one frontier entry of an expanded cell is removed, every
/// discovered, unexpanded cell still waits on the frontier.
proof fn lemma_witness_remove(
    before: Seq<OpenEntry>,
    after: Seq<OpenEntry>,
    k: int,
    closed: Seq<bool>,
    gval: Seq<Option<u64>>,
    dims: GridDims,
    goal: GridNode,
    skip: GridNode,
)
    requires
        0 <= k < before.len(),
        after == before.remove(k),
        before[k].node == skip,
        spec_in_bounds(skip, dims),
        spec_closed_at(closed, skip, dims),
        inv_open_witness(before, closed, gval, dims, goal),
    ensures
        inv_open_witness(after, closed, gval, dims, goal),
{
    assert forall|c: GridNode|
        spec_in_bounds(c, dims) && #[trigger] spec_g_defined(gval, c, dims)
            && !spec_closed_at(closed, c, dims)
        implies exists|j: int| 0 <= j < after.len()
            && (#[trigger] after[j]).node == c
            && after[j].f == spec_g_at(gval, c, dims) + spec_manhattan(c, goal) by {
        let j0 = choose|j0: int| 0 <= j0 < before.len() && (#[trigger] before[j0]).node == c
            && before[j0].f == spec_g_at(gval, c, dims) + spec_manhattan(c, goal);
        assert(c != skip);
        if j0 < k {
            assert(after[j0].node == c);
            assert(after[j0].f == before[j0].f);
        } else {
            assert(after[j0 - 1].node == c);
            assert(after[j0 - 1].f == before[j0].f);
        }
    }
}

/// After one frontier entry of a cell is removed, every other discovered,
/// unexpanded cell still waits on the frontier.
proof fn lemma_witness_remove_except(
    before: Seq<OpenEntry>,
    after: Seq<OpenEntry>,
    k: int,
    closed: Seq<bool>,
    gval: Seq<Option<u64>>,
    dims: GridDims,
    goal: GridNode,
    skip: GridNode,
)
    requires
        0 <= k < before.len(),
        after == before.remove(k),
        before[k].node == skip,
        inv_open_witness(before, closed, gval, dims, goal),
    ensures
        forall|c: GridNode|
            spec_in_bounds(c, dims) && #[trigger] spec_g_defined(gval, c, dims)
                && !spec_closed_at(closed, c, dims) && c != skip
            ==> exists|j: int| 0 <= j < after.len() && (#[trigger] after[j]).node == c
                    && after[j].f == spec_g_at(gval, c, dims) + spec_manhattan(c, goal),
{
    assert forall|c: GridNode|
        spec_in_bounds(c, dims) && #[trigger] spec_g_defined(gval, c, dims)
            && !spec_closed_at(closed, c, dims) && c != skip
        implies exists|j: int| 0 <= j < after.len()
            && (#[trigger] after[j]).node == c
            && after[j].f == spec_g_at(gval, c, dims) + spec_manhattan(c, goal) by {
        let j0 = choose|j0: int| 0 <= j0 < before.len() && (#[trigger] before[j0]).node == c
            && before[j0].f == spec_g_at(gval, c, dims) + spec_manhattan(c, goal);
        if j0 < k {
            assert(after[j0].node == c);
            assert(after[j0].f == before[j0].f);
        } else {
            assert(after[j0 - 1].node == c);
            assert(after[j0 - 1].f == before[j0].f);
        }
    }
}

/// Marking one cell expanded changes no other cell's mark.
proof fn lemma_closed_set_frame(
    closed0: Seq<bool>,
    closed1: Seq<bool>,
    cell: GridNode,
    dims: GridDims,
)
    requires
        closed0.len() == dims.height * dims.width,
        spec_in_bounds(cell, dims),
        closed1 == closed0.update(spec_cell_index(cell, dims), true),
    ensures
        spec_closed_at(closed1, cell, dims),
        forall|c: GridNode| spec_in_bounds(c, dims) && c != cell
            ==> #[trigger] spec_closed_at(closed1, c, dims)
                == spec_closed_at(closed0, c, dims),
{
    lemma_cell_index_inj(cell, cell, dims);
    assert forall|c: GridNode| spec_in_bounds(c, dims) && c != cell
        implies #[trigger] spec_closed_at(closed1, c, dims)
            == spec_closed_at(closed0, c, dims) by {
        lemma_cell_index_inj(c, cell, dims);
    }
}

/// A cost bound for fewer unexpanded cells also holds for more headroom.
proof fn lemma_gbound_loosen(gval: Seq<Option<u64>>, dims: GridDims, u1: nat, u2: nat)
    requires
        inv_gbound_at(gval, dims, u1),
        u2 <= u1,
        u1 <= dims.height * dims.width,
    ensures
        inv_gbound_at(gval, dims, u2),
{
    assert forall|c: GridNode| spec_in_bounds(c, dims) && #[trigger] spec_g_defined(gval, c, dims)
        implies spec_g_at(gval, c, dims)
            <= (dims.height * dims.width - u2 + 1) * (u32::MAX as int) by {
        assert((dims.height * dims.width - u1 + 1) * (u32::MAX as int)
            <= (dims.height * dims.width - u2 + 1) * (u32::MAX as int)) by (nonlinear_arith)
            requires u2 <= u1, u1 <= dims.height * dims.width;
    }
}

/// On any walk from the start to an unexpanded cell some cell is still
/// unexpanded but discovered, at a recorded cost of at most its prefix of
/// the walk. (Needs every expanded cell to undercut its walks, and every
/// expansion to have relaxed its neighbours.)
proof fn lemma_frontier_on_path(
    p: Seq<GridNode>,
    closed: Seq<bool>,
    gval: Seq<Option<u64>>,
    map: Seq<Vec<u32>>,
    dims: GridDims,
    start: GridNode,
    z: GridNode,
) -> (m: int)
    requires
        spec_is_path(p, start, z, map, dims),
        !spec_closed_at(closed, z, dims),
        spec_in_bounds(start, dims),
        spec_g_defined(gval, start, dims),
        spec_g_at(gval, start, dims) == 0,
        inv_closed_opt(closed, gval, map, dims, start),
        inv_relaxed(closed, gval, map, dims),
    ensures
        0 <= m < p.len(),
        !spec_closed_at(closed, p[m], dims),
        spec_g_defined(gval, p[m], dims),
        spec_g_at(gval, p[m], dims) <= spec_path_cost(p.take(m + 1), map),
    decreases p.len(),
{
    if !spec_closed_at(closed, p[0], dims) {
        assert(p.take(1) =~= seq![p[0]]);
        0
    } else {
        let m0 = lemma_frontier_walk(p, 0, closed, gval, map, dims, start, z);
        m0
    }
}

/// Walk along expanded cells of a path until the first unexpanded one.
proof fn lemma_frontier_walk(
    p: Seq<GridNode>,
    i: int,
    closed: Seq<bool>,
    gval: Seq<Option<u64>>,
    map: Seq<Vec<u32>>,
    dims: GridDims,
    start: GridNode,
    z: GridNode,
) -> (m: int)
    requires
        spec_is_path(p, start, z, map, dims),
        !spec_closed_at(closed, z, dims),
        0 <= i < p.len(),
        spec_closed_at(closed, p[i], dims),
        inv_closed_opt(closed, gval, map, dims, start),
        inv_relaxed(closed, gval, map, dims),
    ensures
        i < m < p.len(),
        !spec_closed_at(closed, p[m], dims),
        spec_g_defined(gval, p[m], dims),
        spec_g_at(gval, p[m], dims) <= spec_path_cost(p.take(m + 1), map),
    decreases p.len() - i,
{
    assert(i < p.len() - 1) by {
        assert(p.last() == z);
    }
    if !spec_closed_at(closed, p[i + 1], dims) {
        // The expanded cell p[i] undercuts its prefix of the walk, and its
        // relaxation bounds the next cell by one more step.
        lemma_prefix_is_path(p, i + 1, start, z, map, dims);
        assert(spec_g_at(gval, p[i], dims) <= spec_path_cost(p.take(i + 1), map));
        assert(spec_manhattan(p[i], p[i + 1]) == 1);
        assert(spec_passable(map, p[i + 1]));
        lemma_path_cost_take_step(p, i + 1, map);
        i + 1
    } else {
        lemma_frontier_walk(p, i + 1, closed, gval, map, dims, start, z)
    }
}

/// When no step is free and a frontier entry of an unexpanded cell has
/// the lowest priority, that cell's recorded cost undercuts every walk
/// from the start to it: the walk still carries a fresh frontier entry,
/// whose priority the popped one undercuts, and the Manhattan heuristic
/// bridges the two cells along the walk.
proof fn lemma_popped_optimal(
    open: Seq<OpenEntry>,
    k: int,
    closed: Seq<bool>,
    gval: Seq<Option<u64>>,
    map: Seq<Vec<u32>>,
    dims: GridDims,
    start: GridNode,
    goal: GridNode,
)
    requires
        0 <= k < open.len(),
        forall|j: int| 0 <= j < open.len() ==> open[k].f <= (#[trigger] open[j]).f,
        inv_open_entries(open, gval, dims, goal),
        inv_open_witness(open, closed, gval, dims, goal),
        inv_closed_opt(closed, gval, map, dims, start),
        inv_relaxed(closed, gval, map, dims),
        spec_costs_positive(map, dims),
        spec_in_bounds(start, dims),
        spec_g_defined(gval, start, dims),
        spec_g_at(gval, start, dims) == 0,
        !spec_closed_at(closed, open[k].node, dims),
    ensures
        forall|p: Seq<GridNode>| #[trigger] spec_is_path(p, start, open[k].node, map, dims)
            ==> spec_g_at(gval, open[k].node, dims) <= spec_path_cost(p, map),
{
    let popped = open[k];
    assert forall|p: Seq<GridNode>| #[trigger] spec_is_path(p, start, popped.node, map, dims)
        implies spec_g_at(gval, popped.node, dims) <= spec_path_cost(p, map) by {
        let m = lemma_frontier_on_path(p, closed, gval, map, dims, start, popped.node);
        let j = choose|j: int|
            0 <= j < open.len() && (#[trigger] open[j]).node == p[m]
                && open[j].f == spec_g_at(gval, p[m], dims) + spec_manhattan(p[m], goal);
        lemma_manhattan_chain(p, m, goal, start, popped.node, map, dims);
        assert(popped.f <= open[j].f);
        assert(popped.f >= spec_g_at(gval, popped.node, dims)
            + spec_manhattan(popped.node, goal));
    }
}

/// A cell that undercuts every walk to it may be marked expanded without
/// breaking the expanded cells' cost optimality.
proof fn lemma_closed_opt_extend(
    closed0: Seq<bool>,
    closed1: Seq<bool>,
    gval: Seq<Option<u64>>,
    map: Seq<Vec<u32>>,
    dims: GridDims,
    start: GridNode,
    cell: GridNode,
)
    requires
        inv_closed_opt(closed0, gval, map, dims, start),
        closed0.len() == dims.height * dims.width,
        spec_in_bounds(cell, dims),
        closed1 == closed0.update(spec_cell_index(cell, dims), true),
        forall|p: Seq<GridNode>| #[trigger] spec_is_path(p, start, cell, map, dims)
            ==> spec_g_at(gval, cell, dims) <= spec_path_cost(p, map),
    ensures
        inv_closed_opt(closed1, gval, map, dims, start),
{
    lemma_closed_set_frame(closed0, closed1, cell, dims);
    assert forall|u: GridNode, p: Seq<GridNode>|
        spec_in_bounds(u, dims) && #[trigger] spec_closed_at(closed1, u, dims)
            && #[trigger] spec_is_path(p, start, u, map, dims)
        implies spec_g_at(gval, u, dims) <= spec_path_cost(p, map) by {
        if u != cell {
            assert(spec_closed_at(closed0, u, dims));
        }
    }
}

/// With the frontier empty, no walk joins the start to any unexpanded
/// cell: everything discovered was expanded, expansion discovered every
/// passable neighbour, so a walk would have been expanded to its end.
proof fn lemma_empty_open_unconnected(
    open: Seq<OpenEntry>,
    closed: Seq<bool>,
    gval: Seq<Option<u64>>,
    map: Seq<Vec<u32>>,
    dims: GridDims,
    start: GridNode,
    goal: GridNode,
)
    requires
        open.len() == 0,
        inv_open_witness(open, closed, gval, dims, goal),
        inv_relaxed(closed, gval, map, dims),
        spec_g_defined(gval, start, dims),
        !spec_closed_at(closed, goal, dims),
    ensures
        !spec_connected(start, goal, map, dims),
{
    if spec_connected(start, goal, map, dims) {
        let p = choose|p: Seq<GridNode>| spec_is_path(p, start, goal, map, dims);
        assert forall|c: GridNode|
            spec_in_bounds(c, dims) && #[trigger] spec_g_defined(gval, c, dims)
            implies spec_closed_at(closed, c, dims) by {
            if !spec_closed_at(closed, c, dims) {
                let j = choose|j: int|
                    0 <= j < open.len() && (#[trigger] open[j]).node == c
                        && open[j].f == spec_g_at(gval, c, dims) + spec_manhattan(c, goal);
            }
        }
        lemma_walk_is_expanded(p, p.len() - 1, closed, gval, map, dims, start, goal);
    }
}

/// One relaxation step keeps the per-cell search facts: what another cell
/// recorded is untouched, the relaxed neighbour is bounded by one step
/// beyond the expanded cell, and recorded costs only drop.
proof fn lemma_relax_step(
    gval0: Seq<Option<u64>>,
    gval1: Seq<Option<u64>>,
    closed: Seq<bool>,
    neighbors: Seq<GridNode>,
    j: int,
    nb: GridNode,
    expanded: GridNode,
    gcur: u64,
    map: Seq<Vec<u32>>,
    dims: GridDims,
    start: GridNode,
)
    requires
        0 <= j < neighbors.len(),
        neighbors[j] == nb,
        nb != expanded,
        spec_in_bounds(nb, dims),
        forall|i: int| 0 <= i < neighbors.len()
            ==> spec_in_bounds(#[trigger] neighbors[i], dims),
        forall|i: int| 0 <= i < j && spec_passable(map, #[trigger] neighbors[i])
            ==> spec_g_defined(gval0, neighbors[i], dims)
                && (!spec_closed_at(closed, neighbors[i], dims)
                    ==> spec_g_at(gval0, neighbors[i], dims)
                        <= gcur + spec_cell_cost(map, neighbors[i])),
        forall|c: GridNode, nbc: GridNode|
            spec_in_bounds(c, dims) && spec_in_bounds(nbc, dims)
                && #[trigger] spec_closed_at(closed, c, dims)
                && #[trigger] spec_manhattan(c, nbc) == 1
                && spec_passable(map, nbc)
                && !spec_closed_at(closed, nbc, dims)
                && c != expanded
            ==> spec_g_defined(gval0, nbc, dims)
                && spec_g_at(gval0, nbc, dims)
                    <= spec_g_at(gval0, c, dims) + spec_cell_cost(map, nbc),
        spec_costs_positive(map, dims) ==> inv_closed_opt(closed, gval0, map, dims, start),
        inv_closed_gdef(closed, gval0, dims),
        // What the relaxation guarantees of the new records.
        forall|c: GridNode| spec_in_bounds(c, dims) && c != nb ==> {
            &&& #[trigger] spec_g_defined(gval1, c, dims) == spec_g_defined(gval0, c, dims)
            &&& spec_g_defined(gval0, c, dims)
                ==> spec_g_at(gval1, c, dims) == spec_g_at(gval0, c, dims)
        },
        forall|c: GridNode| spec_in_bounds(c, dims)
            && #[trigger] spec_g_defined(gval0, c, dims) ==> {
            &&& spec_g_defined(gval1, c, dims)
            &&& spec_g_at(gval1, c, dims) <= spec_g_at(gval0, c, dims)
        },
        spec_closed_at(closed, nb, dims) ==> gval1 == gval0,
        spec_passable(map, nb) ==> spec_g_defined(gval1, nb, dims),
        !spec_closed_at(closed, nb, dims) && spec_passable(map, nb)
            ==> spec_g_at(gval1, nb, dims) <= gcur + spec_cell_cost(map, nb),
    ensures
        forall|i: int| 0 <= i < j + 1 && spec_passable(map, #[trigger] neighbors[i])
            ==> spec_g_defined(gval1, neighbors[i], dims)
                && (!spec_closed_at(closed, neighbors[i], dims)
                    ==> spec_g_at(gval1, neighbors[i], dims)
                        <= gcur + spec_cell_cost(map, neighbors[i])),
        forall|c: GridNode, nbc: GridNode|
            spec_in_bounds(c, dims) && spec_in_bounds(nbc, dims)
                && #[trigger] spec_closed_at(closed, c, dims)
                && #[trigger] spec_manhattan(c, nbc) == 1
                && spec_passable(map, nbc)
                && !spec_closed_at(closed, nbc, dims)
                && c != expanded
            ==> spec_g_defined(gval1, nbc, dims)
                && spec_g_at(gval1, nbc, dims)
                    <= spec_g_at(gval1, c, dims) + spec_cell_cost(map, nbc),
        spec_costs_positive(map, dims) ==> inv_closed_opt(closed, gval1, map, dims, start),
{
    assert forall|i: int| 0 <= i < j + 1 && spec_passable(map, #[trigger] neighbors[i])
        implies spec_g_defined(gval1, neighbors[i], dims)
            && (!spec_closed_at(closed, neighbors[i], dims)
                ==> spec_g_at(gval1, neighbors[i], dims)
                    <= gcur + spec_cell_cost(map, neighbors[i])) by {
        if i < j && neighbors[i] != nb {
            assert(spec_g_defined(gval0, neighbors[i], dims));
            assert(spec_g_at(gval1, neighbors[i], dims)
                == spec_g_at(gval0, neighbors[i], dims));
        }
    }
    assert forall|c: GridNode, nbc: GridNode|
        spec_in_bounds(c, dims) && spec_in_bounds(nbc, dims)
            && #[trigger] spec_closed_at(closed, c, dims)
            && #[trigger] spec_manhattan(c, nbc) == 1
            && spec_passable(map, nbc)
            && !spec_closed_at(closed, nbc, dims)
            && c != expanded
        implies spec_g_defined(gval1, nbc, dims)
            && spec_g_at(gval1, nbc, dims)
                <= spec_g_at(gval1, c, dims) + spec_cell_cost(map, nbc) by {
        if spec_closed_at(closed, nb, dims) {
            assert(gval1 == gval0);
        } else {
            assert(c != nb);
            assert(spec_g_at(gval1, c, dims) == spec_g_at(gval0, c, dims));
            if nbc != nb {
                assert(spec_g_defined(gval0, nbc, dims));
                assert(spec_g_at(gval1, nbc, dims) == spec_g_at(gval0, nbc, dims));
            } else {
                assert(spec_g_defined(gval0, nbc, dims));
                assert(spec_g_at(gval1, nbc, dims) <= spec_g_at(gval0, nbc, dims));
            }
        }
    }
    if spec_costs_positive(map, dims) {
        assert forall|u: GridNode, p: Seq<GridNode>|
            spec_in_bounds(u, dims) && #[trigger] spec_closed_at(closed, u, dims)
                && #[trigger] spec_is_path(p, start, u, map, dims)
            implies spec_g_at(gval1, u, dims) <= spec_path_cost(p, map) by {
            if spec_closed_at(closed, nb, dims) {
                assert(gval1 == gval0);
            } else {
                assert(u != nb);
                assert(spec_g_at(gval1, u, dims) == spec_g_at(gval0, u, dims));
            }
        }
    }
}

/// The parent walk recorded for a discovered cell is a walk of the grid
/// from the start to it, and its cost is the cell's recorded cost.
proof fn lemma_recorded_walk_is_path(
    pm: ParentMap,
    cell: GridNode,
    fuel: nat,
    closed: Seq<bool>,
    gval: Seq<Option<u64>>,
    map: Seq<Vec<u32>>,
    dims: GridDims,
    start: GridNode,
)
    requires
        inv_chains(gval, pm, map, dims, start, fuel),
        inv_parent_links(pm, closed, gval, map, dims),
        pm.dims == dims,
        spec_in_bounds(cell, dims),
        spec_g_defined(gval, cell, dims),
    ensures
        pm.spec_has_chain(cell),
        spec_is_path(pm.spec_chain_seq(cell), start, cell, map, dims),
        spec_path_cost(pm.spec_chain_seq(cell), map) == spec_g_at(gval, cell, dims),
{
    assert(pm.spec_chain(cell, fuel) is Some);
    lemma_chain_seq_agrees(pm, cell, fuel);
    lemma_chain_shape(pm, cell, fuel);
    let s = pm.spec_chain(cell, fuel).unwrap();
    assert forall|i: int| 1 <= i < s.len()
        implies spec_manhattan(s[i - 1], #[trigger] s[i]) == 1
            && spec_passable(map, s[i]) by {
        assert(pm.spec_parent(s[i]) == Some(s[i - 1]));
    }
    assert(spec_is_path(s, start, cell, map, dims));
}

/// After a cell's neighbours are all relaxed, every expanded cell's
/// passable, unexpanded neighbours are discovered and bounded.
proof fn lemma_relaxed_after_expand(
    closed: Seq<bool>,
    gval: Seq<Option<u64>>,
    map: Seq<Vec<u32>>,
    dims: GridDims,
    expanded: GridNode,
    neighbors: Seq<GridNode>,
    gcur: u64,
)
    requires
        spec_in_bounds(expanded, dims),
        spec_g_defined(gval, expanded, dims),
        spec_g_at(gval, expanded, dims) == gcur,
        forall|nbc: GridNode|
            spec_in_bounds(nbc, dims) && spec_manhattan(expanded, nbc) == 1
                ==> #[trigger] neighbors.contains(nbc),
        forall|i: int| 0 <= i < neighbors.len()
            && spec_passable(map, #[trigger] neighbors[i])
            ==> spec_g_defined(gval, neighbors[i], dims)
                && (!spec_closed_at(closed, neighbors[i], dims)
                    ==> spec_g_at(gval, neighbors[i], dims)
                        <= gcur + spec_cell_cost(map, neighbors[i])),
        forall|c: GridNode, nbc: GridNode|
            spec_in_bounds(c, dims) && spec_in_bounds(nbc, dims)
                && #[trigger] spec_closed_at(closed, c, dims)
                && #[trigger] spec_manhattan(c, nbc) == 1
                && spec_passable(map, nbc)
                && !spec_closed_at(closed, nbc, dims)
                && c != expanded
            ==> spec_g_defined(gval, nbc, dims)
                && spec_g_at(gval, nbc, dims)
                    <= spec_g_at(gval, c, dims) + spec_cell_cost(map, nbc),
    ensures
        inv_relaxed(closed, gval, map, dims),
{
    assert forall|c: GridNode, nbc: GridNode|
        spec_in_bounds(c, dims) && spec_in_bounds(nbc, dims)
            && #[trigger] spec_closed_at(closed, c, dims)
            && #[trigger] spec_manhattan(c, nbc) == 1
            && spec_passable(map, nbc)
            && !spec_closed_at(closed, nbc, dims)
        implies spec_g_defined(gval, nbc, dims)
            && spec_g_at(gval, nbc, dims)
                <= spec_g_at(gval, c, dims) + spec_cell_cost(map, nbc) by {
        if c == expanded {
            assert(neighbors.contains(nbc));
            let i = choose|i: int| 0 <= i < neighbors.len() && neighbors[i] == nbc;
        }
    }
}

/// Index of the frontier entry with the lowest priority; the earliest
/// enqueued among equals, so that older discoveries win ties.
fn min_f_index(open: &Vec<OpenEntry>) -> (k: usize)
    requires
        open@.len() >= 1,
    ensures
        k < open@.len(),
        forall|j: int| 0 <= j < open@.len() ==> open@[k as int].f <= (#[trigger] open@[j]).f,
        forall|j: int| 0 <= j < k ==> (#[trigger] open@[j]).f > open@[k as int].f,
{
    let mut k: usize = 0;
    let mut j: usize = 1;
    while j < open.len()
        invariant
            1 <= j <= open@.len(),
            k < j,
            forall|i: int| 0 <= i < j ==> open@[k as int].f <= (#[trigger] open@[i]).f,
            forall|i: int| 0 <= i < k ==> (#[trigger] open@[i]).f > open@[k as int].f,
        decreases open@.len() - j,
    {
        if open[j].f < open[k].f {
            k = j;
        }
        j = j + 1;
    }
    k
}

/// Every cell of a walk is expanded once the frontier is empty: the start
/// was discovered, discovered cells off the frontier are expanded, and
/// expansion discovers every passable neighbour.
proof fn lemma_walk_is_expanded(
    p: Seq<GridNode>,
    i: int,
    closed: Seq<bool>,
    gval: Seq<Option<u64>>,
    map: Seq<Vec<u32>>,
    dims: GridDims,
    start: GridNode,
    b: GridNode,
)
    requires
        spec_is_path(p, start, b, map, dims),
        0 <= i < p.len(),
        spec_g_defined(gval, start, dims),
        inv_relaxed(closed, gval, map, dims),
        forall|c: GridNode| spec_in_bounds(c, dims) && #[trigger] spec_g_defined(gval, c, dims)
            ==> spec_closed_at(closed, c, dims),
    ensures
        spec_closed_at(closed, p[i], dims),
    decreases i,
{
    if i == 0 {
    } else {
        lemma_walk_is_expanded(p, i - 1, closed, gval, map, dims, start, b);
        assert(spec_manhattan(p[i - 1], p[i]) == 1);
        assert(spec_passable(map, p[i]));
        if !spec_closed_at(closed, p[i], dims) {
            assert(spec_g_defined(gval, p[i], dims));
        }
    }
}

/// Relax one neighbour of the cell being expanded: skip it when it is
/// already expanded or impassable; otherwise, when the walk through the
/// expanded cell is the first or a cheaper way to reach it, record that
/// walk and enqueue the neighbour.
#[verifier::rlimit(100)]
#[verifier::spinoff_prover]
fn relax_neighbor(
    nb: GridNode,
    expanded: GridNode,
    gcur: u64,
    goal: &GridNode,
    cost_map: &Vec<Vec<u32>>,
    dims: &GridDims,
    closed: &Vec<bool>,
    gval: &mut Vec<Option<u64>>,
    parent: &mut ParentMap,
    open: &mut Vec<OpenEntry>,
    Ghost(start): Ghost<GridNode>,
    Ghost(cf_now): Ghost<nat>,
    Ghost(fuel): Ghost<nat>,
) -> (new_fuel: Ghost<nat>)
    requires
        inv_structure(closed@, old(gval)@, *old(parent), cost_map@, *dims, start, *goal),
        inv_chains(old(gval)@, *old(parent), cost_map@, *dims, start, fuel),
        inv_gbound_at(old(gval)@, *dims, cf_now),
        inv_parent_links(*old(parent), closed@, old(gval)@, cost_map@, *dims),
        inv_closed_gdef(closed@, old(gval)@, *dims),
        inv_open_entries(old(open)@, old(gval)@, *dims, *goal),
        inv_open_witness(old(open)@, closed@, old(gval)@, *dims, *goal),
        spec_count_false(closed@) == cf_now,
        cf_now <= dims.height * dims.width,
        spec_in_bounds(expanded, *dims),
        spec_in_bounds(nb, *dims),
        spec_manhattan(expanded, nb) == 1,
        spec_closed_at(closed@, expanded, *dims),
        spec_g_defined(old(gval)@, expanded, *dims),
        gcur == spec_g_at(old(gval)@, expanded, *dims),
        gcur <= (dims.height * dims.width - cf_now) * (u32::MAX as int),
    ensures
        fuel <= new_fuel@,
        inv_structure(closed@, final(gval)@, *final(parent), cost_map@, *dims, start, *goal),
        inv_chains(final(gval)@, *final(parent), cost_map@, *dims, start, new_fuel@),
        inv_gbound_at(final(gval)@, *dims, cf_now),
        inv_parent_links(*final(parent), closed@, final(gval)@, cost_map@, *dims),
        inv_closed_gdef(closed@, final(gval)@, *dims),
        inv_open_entries(final(open)@, final(gval)@, *dims, *goal),
        inv_open_witness(final(open)@, closed@, final(gval)@, *dims, *goal),
        final(open)@.len() <= old(open)@.len() + 1,
        forall|c: GridNode| spec_in_bounds(c, *dims) && c != nb ==> {
            &&& #[trigger] spec_g_defined(final(gval)@, c, *dims)
                == spec_g_defined(old(gval)@, c, *dims)
            &&& spec_g_defined(old(gval)@, c, *dims)
                ==> spec_g_at(final(gval)@, c, *dims) == spec_g_at(old(gval)@, c, *dims)
        },
        forall|c: GridNode| spec_in_bounds(c, *dims)
            && #[trigger] spec_g_defined(old(gval)@, c, *dims) ==> {
            &&& spec_g_defined(final(gval)@, c, *dims)
            &&& spec_g_at(final(gval)@, c, *dims) <= spec_g_at(old(gval)@, c, *dims)
        },
        spec_closed_at(closed@, nb, *dims) ==> final(gval)@ == old(gval)@,
        spec_passable(cost_map@, nb) ==> spec_g_defined(final(gval)@, nb, *dims),
        !spec_closed_at(closed@, nb, *dims) && spec_passable(cost_map@, nb)
            ==> spec_g_at(final(gval)@, nb, *dims)
                <= gcur + spec_cell_cost(cost_map@, nb),
{
    let ghost map: Seq<Vec<u32>> = cost_map@;
    let ghost gdims: GridDims = *dims;
    let ni = cell_index(&nb, dims);
    proof {
        lemma_cell_index_inj(nb, expanded, gdims);
        assert forall|c: GridNode| spec_in_bounds(c, gdims) && c != nb
            implies spec_cell_index(c, gdims) != spec_cell_index(nb, gdims) by {
            lemma_cell_index_inj(c, nb, gdims);
        }
    }
    if closed[ni] {
        proof {
            assert(spec_closed_at(closed@, nb, gdims));
            assert(spec_g_defined(gval@, nb, gdims));
        }
        return Ghost(fuel);
    }
    let ncost = cost_map[nb.row][nb.col];
    if ncost == COST_BLOCKED {
        proof {
            assert(!spec_passable(map, nb));
        }
        return Ghost(fuel);
    }
    proof {
        assert(gcur + ncost <= (0x1000_0000int + 1) * (u32::MAX as int))
            by (nonlinear_arith)
            requires
                gcur <= (gdims.height * gdims.width - cf_now) * (u32::MAX as int),
                ncost <= u32::MAX,
                0 <= cf_now,
                cf_now <= gdims.height * gdims.width,
                gdims.height * gdims.width <= 0x1000_0000,
        ;
    }
    let tentative = gcur + (ncost as u64);
    let cur_slot = gval[ni];
    let do_update = match cur_slot {
        None => true,
        Some(existing) => tentative < existing,
    };
    if !do_update {
        proof {
            assert(spec_g_defined(gval@, nb, gdims));
            assert(spec_g_at(gval@, nb, gdims) <= tentative);
        }
        return Ghost(fuel);
    }
    let ghost pm_before: ParentMap = *parent;
    let ghost gval_before: Seq<Option<u64>> = gval@;
    parent.set_parent(&nb, expanded);
    gval.set(ni, Some(tentative));
    let ghost new_fuel: nat = fuel + 1;
    proof {
        // Walks of other discovered cells never visit `nb`: their inner
        // cells are expanded and their last cell is not `nb`. So they
        // persist unchanged under the new link.
        assert forall|c: GridNode|
            spec_in_bounds(c, gdims) && #[trigger] spec_g_defined(gval_before, c, gdims)
                && c != nb
            implies parent.spec_chain(c, new_fuel) == pm_before.spec_chain(c, fuel)
                && spec_g_defined(gval@, c, gdims)
                && spec_g_at(gval@, c, gdims) == spec_g_at(gval_before, c, gdims) by {
            lemma_cell_index_inj(c, nb, gdims);
            let s = pm_before.spec_chain(c, fuel).unwrap();
            lemma_chain_shape(pm_before, c, fuel);
            assert(!s.contains(nb)) by {
                if s.contains(nb) {
                    let w = choose|w: int| 0 <= w < s.len() && s[w] == nb;
                    if w == s.len() - 1 {
                        assert(s.last() == c);
                    } else {
                        assert(pm_before.spec_parent(s[w + 1]) == Some(s[w]));
                        assert(spec_closed_at(closed@, nb, gdims));
                    }
                }
            }
            lemma_chain_frame(pm_before, *parent, c, nb, fuel);
            lemma_chain_monotone(*parent, c, fuel, new_fuel);
        }
        // The new walk to `nb` extends the expanded cell's walk by a step.
        let scur = pm_before.spec_chain(expanded, fuel).unwrap();
        lemma_chain_shape(pm_before, expanded, fuel);
        assert(!scur.contains(nb)) by {
            if scur.contains(nb) {
                let w = choose|w: int| 0 <= w < scur.len() && scur[w] == nb;
                if w == scur.len() - 1 {
                    assert(scur.last() == expanded);
                } else {
                    assert(pm_before.spec_parent(scur[w + 1]) == Some(scur[w]));
                    assert(spec_closed_at(closed@, nb, gdims));
                }
            }
        }
        lemma_chain_frame(pm_before, *parent, expanded, nb, fuel);
        assert(parent.spec_chain(nb, new_fuel) == Some(scur.push(nb)));
        assert((scur.push(nb)).drop_last() =~= scur);
        assert(spec_path_cost(scur.push(nb), map) == spec_path_cost(scur, map) + ncost);
        assert(spec_g_at(gval@, nb, gdims) == tentative);
        assert(tentative <= (gdims.height * gdims.width - cf_now + 1) * (u32::MAX as int))
            by (nonlinear_arith)
            requires
                gcur <= (gdims.height * gdims.width - cf_now) * (u32::MAX as int),
                tentative <= gcur + (u32::MAX as int),
        ;
        assert forall|c: GridNode|
            spec_in_bounds(c, gdims) && #[trigger] spec_g_defined(gval@, c, gdims)
            implies {
                let ch = parent.spec_chain(c, new_fuel);
                &&& ch is Some
                &&& ch.unwrap()[0] == start
                &&& spec_g_at(gval@, c, gdims) == spec_path_cost(ch.unwrap(), map)
            } by {
            if c != nb {
                lemma_cell_index_inj(c, nb, gdims);
                assert(spec_g_defined(gval_before, c, gdims));
            }
        }
    }
    proof {
        assert(spec_manhattan(nb, *goal) <= usize::MAX) by {
            assert(gdims.height <= gdims.height * gdims.width
                && gdims.width <= gdims.height * gdims.width) by (nonlinear_arith)
                requires gdims.height >= 1, gdims.width >= 1;
        }
    }
    let hn = manhattan_distance(&nb, goal);
    proof {
        assert(tentative <= (0x1000_0000int + 1) * (u32::MAX as int)) by (nonlinear_arith)
            requires
                tentative <= (gdims.height * gdims.width - cf_now + 1) * (u32::MAX as int),
                gdims.height * gdims.width <= 0x1000_0000,
                0 <= cf_now,
        ;
        assert(hn <= 0x2000_0000int) by {
            assert(gdims.height <= gdims.height * gdims.width
                && gdims.width <= gdims.height * gdims.width) by (nonlinear_arith)
                requires gdims.height >= 1, gdims.width >= 1;
        }
    }
    let ghost open_pre_push: Seq<OpenEntry> = open@;
    open.push(OpenEntry { node: nb, f: tentative + (hn as u64) });
    proof {
        assert forall|c: GridNode|
            spec_in_bounds(c, gdims) && #[trigger] spec_g_defined(gval@, c, gdims)
                && !spec_closed_at(closed@, c, gdims)
            implies exists|j: int| 0 <= j < open@.len()
                && (#[trigger] open@[j]).node == c
                && open@[j].f == spec_g_at(gval@, c, gdims)
                    + spec_manhattan(c, *goal) by {
            if c == nb {
                assert(open@[open@.len() - 1].node == c);
                assert(open@[open@.len() - 1].f
                    == spec_g_at(gval@, c, gdims) + spec_manhattan(c, *goal));
            } else {
                lemma_cell_index_inj(c, nb, gdims);
                assert(spec_g_defined(gval_before, c, gdims));
                let j0 = choose|j0: int|
                    0 <= j0 < open_pre_push.len()
                        && (#[trigger] open_pre_push[j0]).node == c
                        && open_pre_push[j0].f == spec_g_at(gval_before, c, gdims)
                            + spec_manhattan(c, *goal);
                assert(open@[j0].node == c);
                assert(open@[j0].f == open_pre_push[j0].f);
            }
        }
        assert forall|j: int| 0 <= j < open@.len() implies {
            &&& spec_in_bounds((#[trigger] open@[j]).node, gdims)
            &&& spec_g_defined(gval@, open@[j].node, gdims)
            &&& open@[j].f >= spec_g_at(gval@, open@[j].node, gdims)
                + spec_manhattan(open@[j].node, *goal)
        } by {
            if j < open@.len() - 1 {
                let e = open_pre_push[j];
                if e.node == nb {
                    assert(spec_g_at(gval@, nb, gdims) <= spec_g_at(gval_before, nb, gdims)
                        || !spec_g_defined(gval_before, nb, gdims));
                } else {
                    lemma_cell_index_inj(e.node, nb, gdims);
                }
            }
        }
    }
    Ghost(new_fuel)
}

/// Expand one discovered, unexpanded cell: mark it expanded and relax its
/// four neighbours, enqueueing every first or cheaper discovery.
#[verifier::rlimit(100)]
#[verifier::spinoff_prover]
fn expand_cell(
    node: GridNode,
    goal: &GridNode,
    cost_map: &Vec<Vec<u32>>,
    dims: &GridDims,
    closed: &mut Vec<bool>,
    gval: &mut Vec<Option<u64>>,
    parent: &mut ParentMap,
    open: &mut Vec<OpenEntry>,
    Ghost(start): Ghost<GridNode>,
    Ghost(fuel): Ghost<nat>,
) -> (new_fuel: Ghost<nat>)
    requires
        inv_structure(old(closed)@, old(gval)@, *old(parent), cost_map@, *dims, start, *goal),
        inv_chains(old(gval)@, *old(parent), cost_map@, *dims, start, fuel),
        inv_gbound_at(old(gval)@, *dims, spec_count_false(old(closed)@)),
        inv_parent_links(*old(parent), old(closed)@, old(gval)@, cost_map@, *dims),
        inv_closed_gdef(old(closed)@, old(gval)@, *dims),
        inv_relaxed(old(closed)@, old(gval)@, cost_map@, *dims),
        spec_costs_positive(cost_map@, *dims)
            ==> inv_closed_opt(old(closed)@, old(gval)@, cost_map@, *dims, start),
        inv_open_entries(old(open)@, old(gval)@, *dims, *goal),
        forall|c: GridNode|
            spec_in_bounds(c, *dims) && #[trigger] spec_g_defined(old(gval)@, c, *dims)
                && !spec_closed_at(old(closed)@, c, *dims) && c != node
            ==> exists|j: int| 0 <= j < old(open)@.len()
                    && (#[trigger] old(open)@[j]).node == c
                    && old(open)@[j].f == spec_g_at(old(gval)@, c, *dims)
                        + spec_manhattan(c, *goal),
        spec_in_bounds(node, *dims),
        !spec_closed_at(old(closed)@, node, *dims),
        spec_g_defined(old(gval)@, node, *dims),
        spec_costs_positive(cost_map@, *dims) ==> forall|p: Seq<GridNode>|
            #[trigger] spec_is_path(p, start, node, cost_map@, *dims)
                ==> spec_g_at(old(gval)@, node, *dims) <= spec_path_cost(p, cost_map@),
        node != *goal,
        !spec_closed_at(old(closed)@, *goal, *dims),
    ensures
        fuel <= new_fuel@,
        inv_structure(final(closed)@, final(gval)@, *final(parent), cost_map@, *dims, start, *goal),
        inv_chains(final(gval)@, *final(parent), cost_map@, *dims, start, new_fuel@),
        inv_gbound_at(final(gval)@, *dims, spec_count_false(final(closed)@)),
        inv_parent_links(*final(parent), final(closed)@, final(gval)@, cost_map@, *dims),
        inv_closed_gdef(final(closed)@, final(gval)@, *dims),
        inv_relaxed(final(closed)@, final(gval)@, cost_map@, *dims),
        spec_costs_positive(cost_map@, *dims)
            ==> inv_closed_opt(final(closed)@, final(gval)@, cost_map@, *dims, start),
        inv_open_entries(final(open)@, final(gval)@, *dims, *goal),
        inv_open_witness(final(open)@, final(closed)@, final(gval)@, *dims, *goal),
        !spec_closed_at(final(closed)@, *goal, *dims),
        spec_count_false(final(closed)@) == spec_count_false(old(closed)@) - 1,
        final(open)@.len() <= old(open)@.len() + 4,
{
    let ghost map: Seq<Vec<u32>> = cost_map@;
    let ghost gdims: GridDims = *dims;
    let ci = cell_index(&node, dims);
    proof {
        lemma_cell_index_inj(node, node, gdims);
    }
    let gcur = gval[ci].unwrap();
    let ghost closed_before: Seq<bool> = closed@;
    closed.set(ci, true);
    proof {
        lemma_count_false_update(closed_before, spec_cell_index(node, gdims));
        lemma_count_false_le_len(closed@);
        lemma_count_false_le_len(closed_before);
        lemma_closed_set_frame(closed_before, closed@, node, gdims);
        lemma_gbound_loosen(gval@, gdims,
            spec_count_false(closed_before), spec_count_false(closed@));
        assert(gcur <= (gdims.height * gdims.width - spec_count_false(closed@))
            * (u32::MAX as int));
        assert forall|c: GridNode|
            spec_in_bounds(c, gdims) && #[trigger] spec_g_defined(gval@, c, gdims)
                && !spec_closed_at(closed@, c, gdims)
            implies exists|j: int| 0 <= j < open@.len()
                && (#[trigger] open@[j]).node == c
                && open@[j].f == spec_g_at(gval@, c, gdims)
                    + spec_manhattan(c, *goal) by {
            assert(c != node);
        }
        if spec_costs_positive(map, gdims) {
            lemma_closed_opt_extend(
                closed_before, closed@, gval@, map, gdims, start, node);
        }
    }
    let neighbors = get_neighbors(&node, dims);
    proof {
        crate::grid::lemma_neighbors_exact(node, gdims);
        assert(neighbors@.len() <= 4);
    }
    let ghost open_at_expand: Seq<OpenEntry> = open@;
    let ghost cf_now: nat = spec_count_false(closed@);
    let ghost mut cur_fuel: nat = fuel;
    let mut j: usize = 0;
    while j < neighbors.len()
        invariant
            inv_structure(closed@, gval@, *parent, map, gdims, start, *goal),
            inv_chains(gval@, *parent, map, gdims, start, cur_fuel),
            inv_gbound_at(gval@, gdims, cf_now),
            inv_parent_links(*parent, closed@, gval@, map, gdims),
            inv_closed_gdef(closed@, gval@, gdims),
            spec_costs_positive(map, gdims)
                ==> inv_closed_opt(closed@, gval@, map, gdims, start),
            inv_open_entries(open@, gval@, gdims, *goal),
            inv_open_witness(open@, closed@, gval@, gdims, *goal),
            !spec_closed_at(closed@, *goal, gdims),
            map == cost_map@,
            gdims == *dims,
            fuel <= cur_fuel,
            j <= neighbors@.len(),
            neighbors@ == crate::grid::spec_neighbors(node, gdims),
            forall|i: int| 0 <= i < neighbors@.len() ==> {
                &&& spec_in_bounds(#[trigger] neighbors@[i], gdims)
                &&& spec_manhattan(node, neighbors@[i]) == 1
            },
            forall|nbc: GridNode|
                spec_in_bounds(nbc, gdims) && spec_manhattan(node, nbc) == 1
                    ==> #[trigger] neighbors@.contains(nbc),
            spec_in_bounds(node, gdims),
            spec_closed_at(closed@, node, gdims),
            spec_g_defined(gval@, node, gdims),
            gcur == spec_g_at(gval@, node, gdims),
            forall|c: GridNode, nbc: GridNode|
                spec_in_bounds(c, gdims) && spec_in_bounds(nbc, gdims)
                    && #[trigger] spec_closed_at(closed@, c, gdims)
                    && #[trigger] spec_manhattan(c, nbc) == 1
                    && spec_passable(map, nbc)
                    && !spec_closed_at(closed@, nbc, gdims)
                    && c != node
                ==> spec_g_defined(gval@, nbc, gdims)
                    && spec_g_at(gval@, nbc, gdims)
                        <= spec_g_at(gval@, c, gdims) + spec_cell_cost(map, nbc),
            forall|i: int| 0 <= i < j && spec_passable(map, #[trigger] neighbors@[i])
                ==> spec_g_defined(gval@, neighbors@[i], gdims)
                    && (!spec_closed_at(closed@, neighbors@[i], gdims)
                        ==> spec_g_at(gval@, neighbors@[i], gdims)
                            <= gcur + spec_cell_cost(map, neighbors@[i])),
            spec_count_false(closed@) == cf_now,
            cf_now <= gdims.height * gdims.width,
            gcur <= (gdims.height * gdims.width - cf_now) * (u32::MAX as int),
            open@.len() <= open_at_expand.len() + j,
        decreases neighbors@.len() - j,
    {
        let nb = neighbors[j];
        let ghost gval_iter: Seq<Option<u64>> = gval@;
        let Ghost(bumped_fuel) = relax_neighbor(
            nb, node, gcur, goal, cost_map, dims,
            closed, gval, parent, open,
            Ghost(start), Ghost(cf_now), Ghost(cur_fuel),
        );
        proof {
            cur_fuel = bumped_fuel;
            assert(nb != node);
            lemma_relax_step(
                gval_iter, gval@, closed@, neighbors@, j as int, nb, node,
                gcur, map, gdims, start);
        }
        j = j + 1;
    }
    proof {
        lemma_relaxed_after_expand(closed@, gval@, map, gdims, node, neighbors@, gcur);
    }
    Ghost(cur_fuel)
}

/// A* on the 4-connected grid with the threat map as node cost.
///
/// Returns an unfound, empty result when start or goal is off the grid or
/// no walk over passable cells joins them; otherwise a path from start to
/// goal over passable cells together with its cost, the sum of the costs
/// of the cells entered after the start. A cell with the largest `u32`
/// cost is impassable. The frontier is kept ordered by recorded cost plus
/// Manhattan heuristic, oldest entry first among equals; expanded cells
/// are never revisited.
#[verifier::rlimit(100)]
#[verifier::spinoff_prover]
pub fn astar_pathfind(
    start: &GridNode,
    goal: &GridNode,
    cost_map: &Vec<Vec<u32>>,
    dims: &GridDims,
) -> (result: PathResult)
    requires
        crate::threat::spec_map_shape(cost_map@, *dims),
        dims.height * dims.width <= 0x1000_0000,
    ensures
        result.spec_wf(),
        !(spec_in_bounds(*start, *dims) && spec_in_bounds(*goal, *dims)) ==> !result.found,
        result.found ==> spec_is_path(result.path@, *start, *goal, cost_map@, *dims),
        result.found ==> result.cost == spec_path_cost(result.path@, cost_map@),
        spec_in_bounds(*start, *dims) && *start == *goal
            ==> result.found && result.path@ == seq![*start] && result.cost == 0,
        spec_in_bounds(*start, *dims) && spec_in_bounds(*goal, *dims)
            && spec_connected(*start, *goal, cost_map@, *dims) ==> result.found,
        spec_costs_positive(cost_map@, *dims) && result.found
            ==> forall|p: Seq<GridNode>|
                spec_is_path(p, *start, *goal, cost_map@, *dims)
                    ==> result.cost <= spec_path_cost(p, cost_map@),
{
    let ghost map: Seq<Vec<u32>> = cost_map@;
    let ghost gdims: GridDims = *dims;
    if !is_valid_grid_position(start.row, start.col, dims)
        || !is_valid_grid_position(goal.row, goal.col, dims) {
        return PathResult::new(Vec::new(), 0, false);
    }
    if *start == *goal {
        let mut path: Vec<GridNode> = Vec::new();
        path.push(*start);
        proof {
            assert(path@ =~= seq![*start]);
            assert forall|p: Seq<GridNode>| spec_is_path(p, *start, *goal, map, gdims)
                implies 0 <= spec_path_cost(p, map) by {
                lemma_path_cost_nonneg(p, map);
            }
        }
        return PathResult::new(path, 0, true);
    }
    let total: usize = dims.height * dims.width;
    let mut closed: Vec<bool> = vec![false; total];
    let mut gval: Vec<Option<u64>> = vec![None; total];
    let mut parent = ParentMap::new(dims);
    let mut open: Vec<OpenEntry> = Vec::new();
    let si = cell_index(start, dims);
    proof {
        lemma_cell_index_inj(*start, *start, gdims);
    }
    gval.set(si, Some(0u64));
    proof {
        assert(dims.height >= 1 && dims.width >= 1);
        assert(dims.height <= dims.height * dims.width
            && dims.width <= dims.height * dims.width) by (nonlinear_arith)
            requires dims.height >= 1, dims.width >= 1;
        assert(spec_manhattan(*start, *goal) <= usize::MAX);
    }
    let h0 = manhattan_distance(start, goal);
    open.push(OpenEntry { node: *start, f: h0 as u64 });
    let ghost mut link_fuel: nat = 1;
    proof {
        assert(open@[0].node == *start);
        assert(open@[0].f == spec_g_at(gval@, *start, gdims)
            + spec_manhattan(*start, *goal));
        lemma_cell_index_inj(*start, *start, gdims);
        assert forall|c: GridNode| spec_in_bounds(c, gdims) && c != *start
            implies !spec_g_defined(gval@, c, gdims) && parent.spec_parent(c) is None
                && !spec_closed_at(closed@, c, gdims) by {
            lemma_cell_index_inj(c, *start, gdims);
        }
        assert(spec_g_defined(gval@, *start, gdims));
        lemma_cell_index_inj(*goal, *goal, gdims);
        assert(!spec_closed_at(closed@, *goal, gdims));
        assert(parent.spec_chain(*start, 1) == Some(seq![*start]));
        assert(spec_path_cost(seq![*start], map) == 0);
        lemma_count_false_all(closed@);
        lemma_count_false_le_len(closed@);
    }
    loop
        invariant
            inv_structure(closed@, gval@, parent, map, gdims, *start, *goal),
            inv_chains(gval@, parent, map, gdims, *start, link_fuel),
            inv_gbound_at(gval@, gdims, spec_count_false(closed@)),
            inv_parent_links(parent, closed@, gval@, map, gdims),
            inv_closed_gdef(closed@, gval@, gdims),
            inv_relaxed(closed@, gval@, map, gdims),
            spec_costs_positive(map, gdims)
                ==> inv_closed_opt(closed@, gval@, map, gdims, *start),
            inv_open_entries(open@, gval@, gdims, *goal),
            inv_open_witness(open@, closed@, gval@, gdims, *goal),
            !spec_closed_at(closed@, *goal, gdims),
            *start != *goal,
            map == cost_map@,
            gdims == *dims,
        decreases open@.len() + 4 * spec_count_false(closed@),
    {
        if open.len() == 0 {
            proof {
                lemma_empty_open_unconnected(
                    open@, closed@, gval@, map, gdims, *start, *goal);
            }
            return PathResult::new(Vec::new(), 0, false);
        }
        let k = min_f_index(&open);
        let ghost open_before: Seq<OpenEntry> = open@;
        let ghost popped: OpenEntry = open@[k as int];
        proof {
            // When no step is free, the cheapest frontier priority bounds
            // the popped cell's recorded cost by the cost of every walk
            // from the start to it.
            if spec_costs_positive(map, gdims)
                && !spec_closed_at(closed@, popped.node, gdims) {
                lemma_popped_optimal(
                    open@, k as int, closed@, gval@, map, gdims, *start, *goal);
            }
        }
        let entry = open.remove(k);
        let ci = cell_index(&entry.node, dims);
        proof {
            lemma_cell_index_inj(entry.node, entry.node, gdims);
            assert(entry == popped);
        }
        if closed[ci] {
            proof {
                lemma_witness_remove(
                    open_before, open@, k as int, closed@, gval@, gdims, *goal, entry.node);
            }
            continue;
        }
        if entry.node == *goal {
            let goal_g = gval[ci].unwrap();
            proof {
                assert(spec_g_defined(gval@, *goal, gdims));
                lemma_recorded_walk_is_path(
                    parent, *goal, link_fuel, closed@, gval@, map, gdims, *start);
            }
            let path = reconstruct_path(goal, &parent);
            proof {
                assert(spec_is_path(path@, *start, *goal, map, gdims));
                assert(goal_g == spec_path_cost(path@, map));
                if spec_costs_positive(map, gdims) {
                    assert forall|p: Seq<GridNode>|
                        spec_is_path(p, *start, *goal, map, gdims)
                        implies goal_g <= spec_path_cost(p, map) by {
                        assert(spec_is_path(p, *start, popped.node, map, gdims));
                    }
                }
            }
            return PathResult::new(path, goal_g, true);
        }
        proof {
            lemma_witness_remove_except(
                open_before, open@, k as int, closed@, gval@, gdims, *goal, entry.node);
        }
        let Ghost(bumped_fuel) = expand_cell(
            entry.node, goal, cost_map, dims,
            &mut closed, &mut gval, &mut parent, &mut open,
            Ghost(*start), Ghost(link_fuel),
        );
        proof {
            link_fuel = bumped_fuel;
        }
    }
}


/// Every on-grid cell costs exactly `u`, as a threat map with no threat
/// penalty does.
pub open spec fn spec_uniform_map(map: Seq<Vec<u32>>, dims: GridDims, u: u32) -> bool {
    forall|c: GridNode| spec_in_bounds(c, dims) ==> #[trigger] spec_cell_cost(map, c) == u
}

/// On a passable uniform map, a staircase walk joins any two on-grid
/// cells in exactly the Manhattan distance in steps.
pub proof fn lemma_staircase_path(
    a: GridNode,
    b: GridNode,
    map: Seq<Vec<u32>>,
    dims: GridDims,
    u: u32,
) -> (p: Seq<GridNode>)
    requires
        spec_in_bounds(a, dims),
        spec_in_bounds(b, dims),
        spec_uniform_map(map, dims, u),
        u != COST_BLOCKED,
    ensures
        spec_is_path(p, a, b, map, dims),
        p.len() == spec_manhattan(a, b) + 1,
    decreases spec_manhattan(a, b),
{
    if a == b {
        seq![a]
    } else {
        let step = if a.row < b.row {
            GridNode { row: (a.row + 1) as usize, col: a.col }
        } else if a.row > b.row {
            GridNode { row: (a.row - 1) as usize, col: a.col }
        } else if a.col < b.col {
            GridNode { row: a.row, col: (a.col + 1) as usize }
        } else {
            GridNode { row: a.row, col: (a.col - 1) as usize }
        };
        assert(spec_in_bounds(step, dims));
        assert(spec_manhattan(a, step) == 1);
        assert(spec_manhattan(step, b) == spec_manhattan(a, b) - 1);
        let rest = lemma_staircase_path(step, b, map, dims, u);
        let p = seq![a] + rest;
        assert forall|i: int| 1 <= i < p.len()
            implies spec_manhattan(p[i - 1], #[trigger] p[i]) == 1
                && spec_passable(map, p[i]) by {
            if i >= 2 {
                assert(p[i - 1] == rest[i - 2]);
                assert(p[i] == rest[i - 1]);
            }
        }
        p
    }
}

/// Law: on a threat map with no threat penalty — every cell at the same
/// base cost of at least one unit — the search returns a Manhattan-optimal
/// path: its cost is the Manhattan distance times the base cost, and its
/// length is the Manhattan distance plus one. The hypotheses are exactly
/// what `astar_pathfind` ensures of a found result on such a map.
pub proof fn lemma_uniform_map_manhattan_optimal(
    result: PathResult,
    start: GridNode,
    goal: GridNode,
    map: Seq<Vec<u32>>,
    dims: GridDims,
    u: u32,
)
    requires
        spec_uniform_map(map, dims, u),
        1 <= u < COST_BLOCKED,
        spec_in_bounds(start, dims),
        spec_in_bounds(goal, dims),
        result.found,
        spec_is_path(result.path@, start, goal, map, dims),
        result.cost == spec_path_cost(result.path@, map),
        forall|p: Seq<GridNode>| spec_is_path(p, start, goal, map, dims)
            ==> result.cost <= spec_path_cost(p, map),
    ensures
        result.cost == spec_manhattan(start, goal) * u,
        result.path@.len() == spec_manhattan(start, goal) + 1,
{
    let q = lemma_staircase_path(start, goal, map, dims, u);
    lemma_uniform_cost_path_lower_bound(q, start, goal, map, dims, u);
    lemma_uniform_cost_path_lower_bound(result.path@, start, goal, map, dims, u);
    assert(spec_path_cost(q, map) == spec_manhattan(start, goal) * u);
    assert(result.cost <= spec_manhattan(start, goal) * u);
    assert((result.path@.len() - 1) * (u as int) == spec_manhattan(start, goal) * (u as int)
        ==> result.path@.len() - 1 == spec_manhattan(start, goal)) by (nonlinear_arith)
        requires u >= 1;
}
} // verus!
