//! The planning grid.
//!
//! Cells are addressed row-major as `(row, col)` with `0 <= row < height`
//! and `0 <= col < width`. The search works on the 4-connected
//! (von Neumann) neighbourhood.

use vstd::prelude::*;

verus! {

/// One cell of the planning grid.
#[derive(Clone, Copy, Debug, PartialEq, Eq, Hash, Structural)]
pub struct GridNode {
    pub row: usize,
    pub col: usize,
}

/// Size of the planning grid in cells.
#[derive(Clone, Copy, Debug, PartialEq, Eq, Structural)]
pub struct GridDims {
    pub width: usize,
    pub height: usize,
}

impl GridNode {
    pub fn new(row: usize, col: usize) -> (node: GridNode)
        ensures
            node.row == row,
            node.col == col,
    {
        GridNode { row, col }
    }
}

/// The cell `(row, col)` lies on the grid.
pub open spec fn spec_in_bounds_at(row: int, col: int, dims: GridDims) -> bool {
    0 <= row < dims.height && 0 <= col < dims.width
}

/// The cell lies on the grid.
pub open spec fn spec_in_bounds(node: GridNode, dims: GridDims) -> bool {
    spec_in_bounds_at(node.row as int, node.col as int, dims)
}

/// Distance between `x` and `y` on one axis.
pub open spec fn spec_axis_gap(x: int, y: int) -> int {
    if x >= y {
        x - y
    } else {
        y - x
    }
}

/// Manhattan distance between two cells, in cells.
pub open spec fn spec_manhattan(a: GridNode, b: GridNode) -> int {
    spec_axis_gap(a.row as int, b.row as int) + spec_axis_gap(a.col as int, b.col as int)
}

/// Whether the cell `(row, col)` lies on a grid of the given size.
pub fn is_valid_grid_position(row: usize, col: usize, dims: &GridDims) -> (valid: bool)
    ensures
        valid == spec_in_bounds_at(row as int, col as int, *dims),
{
    row < dims.height && col < dims.width
}

/// Manhattan distance heuristic for the 4-connected grid.
pub fn manhattan_distance(a: &GridNode, b: &GridNode) -> (d: usize)
    requires
        spec_manhattan(*a, *b) <= usize::MAX,
    ensures
        d == spec_manhattan(*a, *b),
{
    let dr: usize = if a.row >= b.row {
        a.row - b.row
    } else {
        b.row - a.row
    };
    let dc: usize = if a.col >= b.col {
        a.col - b.col
    } else {
        b.col - a.col
    };
    dr + dc
}

/// The cell at `(row, col)` as a one-cell sequence if it lies on the grid,
/// else the empty sequence.
pub open spec fn spec_maybe_cell(row: int, col: int, dims: GridDims) -> Seq<GridNode> {
    if spec_in_bounds_at(row, col, dims) {
        seq![GridNode { row: row as usize, col: col as usize }]
    } else {
        Seq::empty()
    }
}

/// The in-bounds von Neumann neighbours of a cell, in the fixed order
/// right, left, down, up.
pub open spec fn spec_neighbors(node: GridNode, dims: GridDims) -> Seq<GridNode> {
    spec_maybe_cell(node.row as int, node.col + 1, dims)
        + spec_maybe_cell(node.row as int, node.col - 1, dims)
        + spec_maybe_cell(node.row + 1, node.col as int, dims)
        + spec_maybe_cell(node.row - 1, node.col as int, dims)
}

/// The in-bounds neighbours of `node` on the 4-connected grid, in the order
/// right, left, down, up.
pub fn get_neighbors(node: &GridNode, dims: &GridDims) -> (neighbors: Vec<GridNode>)
    requires
        spec_in_bounds(*node, *dims),
    ensures
        neighbors@ == spec_neighbors(*node, *dims),
{
    let mut neighbors: Vec<GridNode> = Vec::new();
    if node.col + 1 < dims.width {
        neighbors.push(GridNode { row: node.row, col: node.col + 1 });
    }
    if node.col > 0 {
        neighbors.push(GridNode { row: node.row, col: node.col - 1 });
    }
    if node.row + 1 < dims.height {
        neighbors.push(GridNode { row: node.row + 1, col: node.col });
    }
    if node.row > 0 {
        neighbors.push(GridNode { row: node.row - 1, col: node.col });
    }
    assert(neighbors@ =~= spec_neighbors(*node, *dims));
    neighbors
}

/// Every neighbour lies on the grid, one step away; and every on-grid cell
/// one step away is among the neighbours.
pub proof fn lemma_neighbors_exact(node: GridNode, dims: GridDims)
    requires
        spec_in_bounds(node, dims),
    ensures
        forall|i: int| 0 <= i < spec_neighbors(node, dims).len() ==> {
            let nb = #[trigger] spec_neighbors(node, dims)[i];
            spec_in_bounds(nb, dims) && spec_manhattan(node, nb) == 1
        },
        forall|nb: GridNode|
            spec_in_bounds(nb, dims) && spec_manhattan(node, nb) == 1
                ==> #[trigger] spec_neighbors(node, dims).contains(nb),
{
    let s = spec_neighbors(node, dims);
    assert forall|nb: GridNode|
        spec_in_bounds(nb, dims) && spec_manhattan(node, nb) == 1
            implies #[trigger] spec_neighbors(node, dims).contains(nb) by {
        if nb.row == node.row && nb.col == node.col + 1 {
            let k = 0int;
            assert(s[k] == nb);
        } else if nb.row == node.row && nb.col + 1 == node.col {
            let k = spec_maybe_cell(node.row as int, node.col + 1, dims).len() as int;
            assert(s[k] == nb);
        } else if nb.row == node.row + 1 && nb.col == node.col {
            let k = spec_maybe_cell(node.row as int, node.col + 1, dims).len() as int
                + spec_maybe_cell(node.row as int, node.col - 1, dims).len() as int;
            assert(s[k] == nb);
        } else {
            assert(nb.row + 1 == node.row && nb.col == node.col);
            let k = spec_maybe_cell(node.row as int, node.col + 1, dims).len() as int
                + spec_maybe_cell(node.row as int, node.col - 1, dims).len() as int
                + spec_maybe_cell(node.row + 1, node.col as int, dims).len() as int;
            assert(s[k] == nb);
        }
    }
}

} // verus!
