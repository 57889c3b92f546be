//! Decision core of a multi-defender interception simulation.
//!
//! A single intruder tries to reach a circular protected zone; several
//! defenders, each slower than the intruder, coordinate to keep it out.
//! This crate holds the discrete decision logic of that core: the
//! per-defender control state machine, the planning grid, the threat-map
//! accumulation and the A* search that predicts the intruder's path.
//! The continuous geometry (Apollonian circles, arc lengths, velocities)
//! is evaluated by the caller, which reduces it to the plain values —
//! predicate flags, covered cells, cell costs — that these functions take.

pub mod control;
pub mod grid;
pub mod search;
pub mod threat;

pub use control::ControlState;
pub use control::determine_next_control_state;
pub use control::update_defender_states;
pub use grid::GridDims;
pub use grid::GridNode;
pub use grid::get_neighbors;
pub use grid::is_valid_grid_position;
pub use grid::manhattan_distance;
pub use search::ParentMap;
pub use search::PathResult;
pub use search::astar_pathfind;
pub use search::reconstruct_path;
pub use search::select_goal_cell;
pub use threat::build_threat_map;
