use interception_core::GridDims;
use interception_core::GridNode;
use interception_core::build_threat_map;
use interception_core::get_neighbors;
use interception_core::is_valid_grid_position;
use interception_core::manhattan_distance;

#[test]
fn test_manhattan_distance() {
    let a = GridNode::new(0, 0);
    let b = GridNode::new(3, 4);
    assert_eq!(manhattan_distance(&a, &b), 7);

    let c = GridNode::new(2, 2);
    let d = GridNode::new(2, 2);
    assert_eq!(manhattan_distance(&c, &d), 0);
}

#[test]
fn test_get_neighbors() {
    let dims = GridDims { width: 5, height: 5 };

    let center = GridNode::new(2, 2);
    let neighbors = get_neighbors(&center, &dims);
    assert_eq!(neighbors.len(), 4);

    let corner = GridNode::new(0, 0);
    let corner_neighbors = get_neighbors(&corner, &dims);
    assert_eq!(corner_neighbors.len(), 2);

    let edge = GridNode::new(0, 2);
    let edge_neighbors = get_neighbors(&edge, &dims);
    assert_eq!(edge_neighbors.len(), 3);
}

#[test]
fn test_get_neighbors_order() {
    let dims = GridDims { width: 5, height: 5 };
    let center = GridNode::new(2, 2);
    let neighbors = get_neighbors(&center, &dims);
    // Fixed order: right, left, down, up.
    assert_eq!(neighbors[0], GridNode::new(2, 3));
    assert_eq!(neighbors[1], GridNode::new(2, 1));
    assert_eq!(neighbors[2], GridNode::new(3, 2));
    assert_eq!(neighbors[3], GridNode::new(1, 2));
}

#[test]
fn test_is_valid_grid_position() {
    let dims = GridDims { width: 4, height: 3 };
    assert!(is_valid_grid_position(0, 0, &dims));
    assert!(is_valid_grid_position(2, 3, &dims));
    assert!(!is_valid_grid_position(3, 0, &dims));
    assert!(!is_valid_grid_position(0, 4, &dims));
}

#[test]
fn test_threat_map_no_defenders() {
    let dims = GridDims { width: 3, height: 2 };
    let covers: Vec<Vec<GridNode>> = Vec::new();
    let map = build_threat_map(&dims, 1, 1000, &covers);
    assert_eq!(map.len(), 2);
    for row in &map {
        assert_eq!(row.len(), 3);
        for &cost in row {
            assert_eq!(cost, 1);
        }
    }
}

// A cell inside one disk pays one penalty; inside two disks, two; outside
// all, none.
#[test]
fn test_threat_map_penalties() {
    let dims = GridDims { width: 3, height: 3 };
    let first_disk = vec![GridNode::new(1, 1), GridNode::new(1, 2)];
    let second_disk = vec![GridNode::new(1, 1)];
    let covers = vec![first_disk, second_disk];
    let map = build_threat_map(&dims, 1, 1000, &covers);
    assert_eq!(map[1][1], 2001);
    assert_eq!(map[1][2], 1001);
    assert_eq!(map[0][0], 1);
    assert_eq!(map[2][2], 1);
}

#[test]
fn test_threat_map_saturates() {
    let dims = GridDims { width: 1, height: 1 };
    let covers = vec![vec![GridNode::new(0, 0)], vec![GridNode::new(0, 0)]];
    let map = build_threat_map(&dims, u32::MAX - 1500, 1000, &covers);
    assert_eq!(map[0][0], u32::MAX);
}
