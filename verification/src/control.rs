//! Per-defender control state machine.
//!
//! Each defender is in one of three states. From `Travel` or `Engage` the
//! next state is chosen from two geometric predicates that the caller
//! evaluates on the current world snapshot: whether the segment from the
//! intruder to the protected-zone centre crosses the defender's Apollonian
//! circle, and whether that circle intersects the protected zone.
//! `Intercept` is terminal: once entered it is never left.

use vstd::prelude::*;

verus! {

/// Control state of one defender. `Intercept` is terminal.
#[derive(Clone, Copy, Debug, PartialEq, Eq, Structural)]
pub enum ControlState {
    Travel,
    Engage,
    Intercept,
}

/// Next state of one defender, given the two predicate flags.
/// Priority: stay in `Intercept`; else a path hit forces `Intercept`;
/// else zone contact gives `Engage`; else `Travel`.
pub open spec fn spec_next_state(
    current: ControlState,
    path_hits_circle: bool,
    circle_meets_zone: bool,
) -> ControlState {
    if current is Intercept {
        ControlState::Intercept
    } else if path_hits_circle {
        ControlState::Intercept
    } else if circle_meets_zone {
        ControlState::Engage
    } else {
        ControlState::Travel
    }
}

/// State of defender `i` before a tick, where a state vector shorter than
/// the defender count is read as padded with `Travel`.
pub open spec fn spec_padded_state(states: Seq<ControlState>, i: int) -> ControlState {
    if 0 <= i < states.len() {
        states[i]
    } else {
        ControlState::Travel
    }
}

/// The whole state vector after one tick: entry `i` follows the transition
/// for defender `i`'s flags; entries beyond the defender count are kept.
pub open spec fn spec_updated_states(
    states: Seq<ControlState>,
    path_hits: Seq<bool>,
    zone_meets: Seq<bool>,
) -> Seq<ControlState> {
    Seq::new(
        if states.len() > path_hits.len() { states.len() } else { path_hits.len() },
        |i: int|
            if i < path_hits.len() {
                spec_next_state(spec_padded_state(states, i), path_hits[i], zone_meets[i])
            } else {
                states[i]
            },
    )
}

/// One transition of the state machine.
///
/// `path_hits_circle`: the segment from the intruder to the protected-zone
/// centre meets the defender's Apollonian circle. `circle_meets_zone`: the
/// Apollonian circle intersects the protected zone. Both are false for a
/// degenerate (infinite-radius) Apollonian circle.
pub fn determine_next_control_state(
    current: &ControlState,
    path_hits_circle: bool,
    circle_meets_zone: bool,
) -> (next: ControlState)
    ensures
        next == spec_next_state(*current, path_hits_circle, circle_meets_zone),
{
    if *current == ControlState::Intercept {
        ControlState::Intercept
    } else if path_hits_circle {
        ControlState::Intercept
    } else if circle_meets_zone {
        ControlState::Engage
    } else {
        ControlState::Travel
    }
}

/// Advance the caller-owned state vector by one tick.
///
/// The vector is first extended with `Travel` up to the defender count
/// (`path_hits.len()`); it is never shrunk. Entry `i` then takes the
/// transition for defender `i`'s predicate flags.
pub fn update_defender_states(
    states: &mut Vec<ControlState>,
    path_hits: &Vec<bool>,
    zone_meets: &Vec<bool>,
)
    requires
        path_hits@.len() == zone_meets@.len(),
    ensures
        final(states)@ == spec_updated_states(old(states)@, path_hits@, zone_meets@),
{
    let ghost orig: Seq<ControlState> = states@;
    let n: usize = path_hits.len();
    while states.len() < n
        invariant
            n == path_hits@.len(),
            orig.len() <= states@.len(),
            states@.len() <= if orig.len() > n as int { orig.len() as int } else { n as int },
            forall|i: int| 0 <= i < states@.len() ==> states@[i] == spec_padded_state(orig, i),
        decreases n - states@.len(),
    {
        states.push(ControlState::Travel);
    }
    let mut i: usize = 0;
    while i < n
        invariant
            n == path_hits@.len() == zone_meets@.len(),
            i <= n,
            states@.len() == if orig.len() > n as int { orig.len() as int } else { n as int },
            forall|j: int| 0 <= j < i ==> states@[j] == spec_next_state(
                spec_padded_state(orig, j), path_hits@[j], zone_meets@[j]),
            forall|j: int| i <= j < states@.len() ==> states@[j] == spec_padded_state(orig, j),
        decreases n - i,
    {
        let next = determine_next_control_state(&states[i], path_hits[i], zone_meets[i]);
        states.set(i, next);
        i = i + 1;
    }
    assert(states@ =~= spec_updated_states(orig, path_hits@, zone_meets@));
}

/// Law: `Intercept` is terminal. A defender whose entry is `Intercept`
/// keeps it through any later tick, whatever the predicates say.
pub proof fn lemma_intercept_is_terminal(
    states: Seq<ControlState>,
    path_hits: Seq<bool>,
    zone_meets: Seq<bool>,
    i: int,
)
    requires
        path_hits.len() == zone_meets.len(),
        0 <= i < states.len(),
        states[i] is Intercept,
    ensures
        spec_updated_states(states, path_hits, zone_meets)[i] is Intercept,
{
}

/// Law: a path hit forces `Intercept`, whatever the previous state was.
pub proof fn lemma_path_hit_forces_intercept(
    states: Seq<ControlState>,
    path_hits: Seq<bool>,
    zone_meets: Seq<bool>,
    i: int,
)
    requires
        path_hits.len() == zone_meets.len(),
        0 <= i < path_hits.len(),
        path_hits[i],
    ensures
        spec_updated_states(states, path_hits, zone_meets)[i] is Intercept,
{
}

} // verus!
