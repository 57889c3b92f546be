//! Threat-map accumulation.
//!
//! The threat map is a `height x width` cost field over the planning grid:
//! every cell starts at a base cost, and every cell whose centre lies
//! inside a defender's Apollonian disk pays an additive penalty per such
//! disk. The caller rasterises each disk (a geometric test on cell
//! centres) and hands in one list of covered cells per defender; this
//! module owns the accumulation and its arithmetic.

use vstd::prelude::*;
use crate::grid::GridDims;
use crate::grid::GridNode;
use crate::grid::spec_in_bounds;

verus! {

/// A cost field has one row per grid row and one entry per grid column.
pub open spec fn spec_map_shape(map: Seq<Vec<u32>>, dims: GridDims) -> bool {
    &&& map.len() == dims.height
    &&& forall|r: int| 0 <= r < map.len() ==> (#[trigger] map[r])@.len() == dims.width
}

/// `v + p`, saturating at the largest cell cost.
pub open spec fn spec_saturating_add(v: u32, p: u32) -> u32 {
    if v + p > u32::MAX {
        u32::MAX
    } else {
        (v + p) as u32
    }
}

/// Cost of a cell covered by `k` disks: the base cost plus `k` penalties,
/// saturating at the largest cell cost.
pub open spec fn spec_cost_after(base: u32, penalty: u32, k: nat) -> u32
    decreases k,
{
    if k == 0 {
        base
    } else {
        spec_saturating_add(spec_cost_after(base, penalty, (k - 1) as nat), penalty)
    }
}

/// How many of the given cover lists contain the cell.
pub open spec fn spec_cover_count(covers: Seq<Vec<GridNode>>, cell: GridNode) -> nat
    decreases covers.len(),
{
    if covers.len() == 0 {
        0
    } else {
        spec_cover_count(covers.drop_last(), cell)
            + if covers.last()@.contains(cell) { 1nat } else { 0nat }
    }
}

/// A cover list is admissible when its cells lie on the grid and no cell
/// repeats (a disk covers a cell at most once).
pub open spec fn spec_cover_ok(cover: Seq<GridNode>, dims: GridDims) -> bool {
    &&& forall|i: int| 0 <= i < cover.len() ==> spec_in_bounds(#[trigger] cover[i], dims)
    &&& forall|i: int, j: int| 0 <= i < j < cover.len() ==> cover[i] != cover[j]
}

/// Cost field filled with the base cost.
fn init_cost_map(dims: &GridDims, base_cost: u32) -> (map: Vec<Vec<u32>>)
    ensures
        spec_map_shape(map@, *dims),
        forall|r: int, c: int| 0 <= r < dims.height && 0 <= c < dims.width
            ==> (#[trigger] map@[r]@[c]) == base_cost,
{
    let mut map: Vec<Vec<u32>> = Vec::new();
    while map.len() < dims.height
        invariant
            map@.len() <= dims.height,
            forall|r: int| 0 <= r < map@.len() ==> (#[trigger] map@[r])@.len() == dims.width,
            forall|r: int, c: int| 0 <= r < map@.len() && 0 <= c < dims.width
                ==> (#[trigger] map@[r]@[c]) == base_cost,
        decreases dims.height - map.len(),
    {
        let mut row: Vec<u32> = Vec::new();
        while row.len() < dims.width
            invariant
                row@.len() <= dims.width,
                forall|c: int| 0 <= c < row@.len() ==> row@[c] == base_cost,
            decreases dims.width - row.len(),
        {
            row.push(base_cost);
        }
        map.push(row);
    }
    map
}

/// Add the penalty, saturating, to every cell of one cover list.
fn add_cover_penalty(map: &mut Vec<Vec<u32>>, cover: &Vec<GridNode>, penalty: u32, dims: &GridDims)
    requires
        spec_map_shape(old(map)@, *dims),
        spec_cover_ok(cover@, *dims),
    ensures
        spec_map_shape(final(map)@, *dims),
        forall|r: int, c: int| 0 <= r < dims.height && 0 <= c < dims.width ==> {
            let cell = GridNode { row: r as usize, col: c as usize };
            (#[trigger] final(map)@[r]@[c]) == if cover@.contains(cell) {
                spec_saturating_add(old(map)@[r]@[c], penalty)
            } else {
                old(map)@[r]@[c]
            }
        },
{
    let ghost orig: Seq<Vec<u32>> = map@;
    let mut i: usize = 0;
    while i < cover.len()
        invariant
            spec_map_shape(map@, *dims),
            spec_cover_ok(cover@, *dims),
            i <= cover@.len(),
            spec_map_shape(orig, *dims),
            forall|r: int, c: int| 0 <= r < dims.height && 0 <= c < dims.width ==> {
                let cell = GridNode { row: r as usize, col: c as usize };
                (#[trigger] map@[r]@[c]) == if cover@.take(i as int).contains(cell) {
                    spec_saturating_add(orig[r]@[c], penalty)
                } else {
                    orig[r]@[c]
                }
            },
        decreases cover@.len() - i,
    {
        let cell = cover[i];
        let r = cell.row;
        let c = cell.col;
        proof {
            assert(spec_in_bounds(cover@[i as int], *dims));
        }
        let ghost prev: Seq<Vec<u32>> = map@;
        let v = map[r][c];
        let bumped = if v > u32::MAX - penalty {
            u32::MAX
        } else {
            v + penalty
        };
        let row_ref = &mut map[r];
        row_ref.set(c, bumped);
        proof {
            assert forall|rr: int, cc: int|
                0 <= rr < dims.height && 0 <= cc < dims.width
                implies (map@[rr]@[cc]) == {
                    let other = GridNode { row: rr as usize, col: cc as usize };
                    if cover@.take(i + 1).contains(other) {
                        spec_saturating_add(orig[rr]@[cc], penalty)
                    } else {
                        orig[rr]@[cc]
                    }
                } by {
                let other = GridNode { row: rr as usize, col: cc as usize };
                assert(map@[rr]@[cc] == if rr == r && cc == c {
                    bumped
                } else {
                    prev[rr]@[cc]
                });
                if cover@.take(i + 1).contains(other) {
                    let w = choose|w: int|
                        0 <= w < i + 1 && #[trigger] cover@.take(i + 1)[w] == other;
                    if w < i {
                        assert(cover@.take(i as int)[w] == other);
                        assert(other != cell);
                    } else {
                        assert(other == cell);
                        assert(rr == r && cc == c);
                        assert(!cover@.take(i as int).contains(cell)) by {
                            if cover@.take(i as int).contains(cell) {
                                let u = choose|u: int|
                                    0 <= u < i && #[trigger] cover@.take(i as int)[u] == cell;
                                assert(cover@[u] == cover@[i as int]);
                            }
                        }
                    }
                } else {
                    assert(!cover@.take(i as int).contains(other)) by {
                        if cover@.take(i as int).contains(other) {
                            let u = choose|u: int|
                                0 <= u < i && #[trigger] cover@.take(i as int)[u] == other;
                            assert(cover@.take(i + 1)[u] == other);
                        }
                    }
                    assert(other != cell) by {
                        if other == cell {
                            assert(cover@.take(i + 1)[i as int] == cell);
                        }
                    }
                    assert(!(rr == r && cc == c));
                }
            }
        }
        i = i + 1;
    }
    proof {
        assert(cover@.take(cover@.len() as int) =~= cover@);
    }
}

/// Build the threat map for one tick.
///
/// Every cell starts at `base_cost`; then, for each defender's cover list,
/// every listed cell pays `threat_penalty` once more, saturating at the
/// largest cell cost. A cell covered by `k` defenders therefore costs
/// exactly `base_cost` plus `k` penalties; a cell covered by none keeps
/// `base_cost`.
pub fn build_threat_map(
    dims: &GridDims,
    base_cost: u32,
    threat_penalty: u32,
    covers: &Vec<Vec<GridNode>>,
) -> (map: Vec<Vec<u32>>)
    requires
        forall|d: int| 0 <= d < covers@.len()
            ==> spec_cover_ok((#[trigger] covers@[d])@, *dims),
    ensures
        spec_map_shape(map@, *dims),
        forall|r: int, c: int| 0 <= r < dims.height && 0 <= c < dims.width
            ==> (#[trigger] map@[r]@[c]) == spec_cost_after(
                base_cost,
                threat_penalty,
                spec_cover_count(covers@, GridNode { row: r as usize, col: c as usize }),
            ),
{
    let mut map = init_cost_map(dims, base_cost);
    let mut d: usize = 0;
    while d < covers.len()
        invariant
            forall|k: int| 0 <= k < covers@.len()
                ==> spec_cover_ok((#[trigger] covers@[k])@, *dims),
            d <= covers@.len(),
            spec_map_shape(map@, *dims),
            forall|r: int, c: int| 0 <= r < dims.height && 0 <= c < dims.width
                ==> (#[trigger] map@[r]@[c]) == spec_cost_after(
                    base_cost,
                    threat_penalty,
                    spec_cover_count(
                        covers@.take(d as int),
                        GridNode { row: r as usize, col: c as usize },
                    ),
                ),
        decreases covers@.len() - d,
    {
        add_cover_penalty(&mut map, &covers[d], threat_penalty, dims);
        proof {
            assert(covers@.take(d + 1).drop_last() =~= covers@.take(d as int));
            assert(covers@.take(d + 1).last() == covers@[d as int]);
        }
        d = d + 1;
    }
    proof {
        assert(covers@.take(covers@.len() as int) =~= covers@);
    }
    map
}

/// Law: a cell inside at least one defender's disk costs at least the base
/// cost plus one penalty (up to saturation at the largest cell cost), and a
/// cell inside none costs exactly the base cost.
pub proof fn lemma_threat_map_cost_bounds(base: u32, penalty: u32, k: nat)
    ensures
        k == 0 ==> spec_cost_after(base, penalty, k) == base,
        k >= 1 ==> spec_cost_after(base, penalty, k) >= spec_saturating_add(base, penalty),
    decreases k,
{
    if k >= 1 {
        lemma_threat_map_cost_bounds(base, penalty, (k - 1) as nat);
        if k >= 2 {
            lemma_cost_after_monotone(base, penalty, (k - 1) as nat);
        }
    }
}

/// Adding one more covering disk never lowers a cell's cost.
pub proof fn lemma_cost_after_monotone(base: u32, penalty: u32, k: nat)
    ensures
        spec_cost_after(base, penalty, (k + 1) as nat) >= spec_cost_after(base, penalty, k),
{
}

} // verus!
