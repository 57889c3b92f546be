use interception_core::GridDims;
use interception_core::GridNode;
use interception_core::ParentMap;
use interception_core::PathResult;
use interception_core::astar_pathfind;
use interception_core::reconstruct_path;
use interception_core::select_goal_cell;

fn uniform_map(dims: &GridDims, cost: u32) -> Vec<Vec<u32>> {
    vec![vec![cost; dims.width]; dims.height]
}

#[test]
fn test_astar_simple_path() {
    let dims = GridDims { width: 5, height: 5 };
    let cost_map = uniform_map(&dims, 1);

    let start = GridNode::new(0, 0);
    let goal = GridNode::new(4, 4);

    let result = astar_pathfind(&start, &goal, &cost_map, &dims);

    assert!(result.found);
    assert_eq!(result.path.len(), 9); // 8 steps + start position
    assert_eq!(result.path[0], start);
    assert_eq!(result.path[result.path.len() - 1], goal);
}

#[test]
fn test_astar_blocked_path() {
    let dims = GridDims { width: 3, height: 3 };
    let mut cost_map = uniform_map(&dims, 1);

    // Block the middle column entirely; on the 4-connected grid that
    // leaves the two sides disconnected.
    for row in 0..3 {
        cost_map[row][1] = u32::MAX;
    }

    let start = GridNode::new(1, 0);
    let goal = GridNode::new(1, 2);

    let _result = astar_pathfind(&start, &goal, &cost_map, &dims);

    // With every cell but the start impassable, no path exists.
    let mut fully_blocked = vec![vec![u32::MAX; 3]; 3];
    fully_blocked[1][0] = 1;

    let blocked_result = astar_pathfind(&start, &goal, &fully_blocked, &dims);
    assert!(!blocked_result.found);
}

#[test]
fn test_astar_uniform_grid_cost() {
    let dims = GridDims { width: 5, height: 5 };
    let cost_map = uniform_map(&dims, 1);
    let start = GridNode::new(0, 0);
    let goal = GridNode::new(4, 4);
    let result = astar_pathfind(&start, &goal, &cost_map, &dims);
    assert!(result.found);
    assert_eq!(result.cost, 8);
}

#[test]
fn test_astar_not_found_is_empty() {
    let dims = GridDims { width: 3, height: 3 };
    let mut cost_map = uniform_map(&dims, 1);
    for row in 0..3 {
        cost_map[row][1] = u32::MAX;
    }
    cost_map[0][0] = u32::MAX;
    cost_map[1][0] = u32::MAX;
    cost_map[2][0] = u32::MAX;
    let start = GridNode::new(1, 0);
    let goal = GridNode::new(1, 2);
    let result = astar_pathfind(&start, &goal, &cost_map, &dims);
    assert!(!result.found);
    assert!(result.path.is_empty());
    assert_eq!(result.cost, 0);
}

#[test]
fn test_astar_off_grid_inputs() {
    let dims = GridDims { width: 3, height: 3 };
    let cost_map = uniform_map(&dims, 1);
    let start = GridNode::new(5, 0);
    let goal = GridNode::new(1, 2);
    let result = astar_pathfind(&start, &goal, &cost_map, &dims);
    assert!(!result.found);
    assert!(result.path.is_empty());
    assert_eq!(result.cost, 0);
}

#[test]
fn test_astar_start_is_goal() {
    let dims = GridDims { width: 3, height: 3 };
    let cost_map = uniform_map(&dims, 1);
    let cell = GridNode::new(2, 1);
    let result = astar_pathfind(&cell, &cell, &cost_map, &dims);
    assert!(result.found);
    assert_eq!(result.path.len(), 1);
    assert_eq!(result.path[0], cell);
    assert_eq!(result.cost, 0);
}

#[test]
fn test_astar_avoids_expensive_cells() {
    let dims = GridDims { width: 3, height: 3 };
    let mut cost_map = uniform_map(&dims, 1);
    // The direct route through the centre cell is passable but dear.
    cost_map[1][1] = 10;
    let start = GridNode::new(1, 0);
    let goal = GridNode::new(1, 2);
    let result = astar_pathfind(&start, &goal, &cost_map, &dims);
    assert!(result.found);
    // Around the centre: four steps of cost 1 each beat 10 + 1.
    assert_eq!(result.cost, 4);
    assert_eq!(result.path.len(), 5);
}

#[test]
fn test_select_goal_cell_lowest_cost() {
    let dims = GridDims { width: 3, height: 3 };
    let mut cost_map = uniform_map(&dims, 5);
    cost_map[2][2] = 3;
    cost_map[0][1] = 2;
    let candidates = vec![GridNode::new(0, 0), GridNode::new(2, 2), GridNode::new(0, 1)];
    let best = select_goal_cell(&candidates, &cost_map, &dims);
    assert_eq!(best, Some(GridNode::new(0, 1)));
}

#[test]
fn test_select_goal_cell_tie_breaks_earliest() {
    let dims = GridDims { width: 2, height: 2 };
    let cost_map = uniform_map(&dims, 7);
    let candidates = vec![GridNode::new(1, 0), GridNode::new(0, 0), GridNode::new(1, 1)];
    let best = select_goal_cell(&candidates, &cost_map, &dims);
    assert_eq!(best, Some(GridNode::new(1, 0)));
}

#[test]
fn test_select_goal_cell_empty() {
    let dims = GridDims { width: 2, height: 2 };
    let cost_map = uniform_map(&dims, 1);
    let candidates: Vec<GridNode> = Vec::new();
    assert_eq!(select_goal_cell(&candidates, &cost_map, &dims), None);
}

#[test]
fn test_reconstruct_path_walks_parent_links() {
    let dims = GridDims { width: 2, height: 2 };
    let mut came_from = ParentMap::new(&dims);
    came_from.set_parent(&GridNode::new(0, 1), GridNode::new(0, 0));
    came_from.set_parent(&GridNode::new(1, 1), GridNode::new(0, 1));
    let path = reconstruct_path(&GridNode::new(1, 1), &came_from);
    assert_eq!(
        path,
        vec![GridNode::new(0, 0), GridNode::new(0, 1), GridNode::new(1, 1)]
    );
}

#[test]
fn test_path_result_new() {
    let missing = PathResult::new(Vec::new(), 0, false);
    assert!(!missing.found);
    assert!(missing.path.is_empty());
    assert_eq!(missing.cost, 0);

    let found = PathResult::new(vec![GridNode::new(0, 0)], 0, true);
    assert!(found.found);
    assert_eq!(found.path.len(), 1);
}
