//! What maps are made from, as far as it is counted and not measured, and the rules
//! of traversal.

use vstd::prelude::*;

verus! {

/// The counts and rules of one map. Measures (radii, ratios and the easing of
/// corridor lengths) are numbers that only the geometry around the library reads.
#[derive(Clone, Debug)]
pub struct LevelMapConfig {
    /// How many stops each stage has, from the entry stage to the exit stage. At
    /// least two stages.
    pub layout: Vec<u32>,
    /// Stage columns on each side beyond the visible region.
    pub stage_buffer: u32,
    /// The most cells that a corridor may walk through where stages are not
    /// adjacent.
    pub allow_extra_traversal: u32,
    /// Prefers longer corridors, if given.
    pub desired_traversals: Option<DesiredTraversals>,
    /// The seed of this map. Without one, the next seed of
    /// [`crate::LevelMapRng`] is taken.
    pub seed: Option<u64>,
    /// The rules of traversal.
    pub policy: LevelMapPolicy,
    /// How many seeds the generator tries before it gives up.
    pub max_attempts: u32,
}

impl Default for LevelMapConfig {
    fn default() -> (cfg: Self)
        ensures
            cfg.layout@ == seq![1u32, 3, 1, 3, 3, 1],
            cfg.stage_buffer == 5,
            cfg.allow_extra_traversal == 1,
            cfg.desired_traversals is None,
            cfg.seed is None,
            cfg.policy == default_policy(),
            cfg.max_attempts == 8,
    {
        let layout: Vec<u32> = vec![1, 3, 1, 3, 3, 1];
        assert(layout@ =~= seq![1u32, 3, 1, 3, 3, 1]);
        LevelMapConfig {
            layout,
            stage_buffer: 5,
            allow_extra_traversal: 1,
            desired_traversals: None,
            seed: None,
            policy: LevelMapPolicy::default(),
            max_attempts: 8,
        }
    }
}

/// Asks for corridors with cells between the stops.
#[derive(Clone, Copy, Debug, PartialEq, Eq, Structural)]
pub struct DesiredTraversals {
    /// The average number of cells within a corridor.
    pub average: u8,
}

impl Default for DesiredTraversals {
    fn default() -> (d: Self)
        ensures
            d.average == 1,
    {
        DesiredTraversals { average: 1 }
    }
}

/// The rules of traversal. They belong to the root of a map and may change at any
/// time.
#[derive(Clone, Copy, Debug, PartialEq, Eq, Structural)]
pub struct LevelMapPolicy {
    /// Whether a `Visited` node may become `Active` again.
    pub allow_revisit: bool,
    /// Whether a node may be visited that no path leads to from the active node.
    pub allow_teleport: bool,
    /// Whether a path may be visited.
    pub allow_path_visit: bool,
}

/// The rules where nothing else is said: no revisits, but teleports and path visits.
pub open spec fn default_policy() -> LevelMapPolicy {
    LevelMapPolicy { allow_revisit: false, allow_teleport: true, allow_path_visit: true }
}

impl Default for LevelMapPolicy {
    fn default() -> (policy: Self)
        ensures
            policy == default_policy(),
    {
        LevelMapPolicy { allow_revisit: false, allow_teleport: true, allow_path_visit: true }
    }
}

} // verus!
