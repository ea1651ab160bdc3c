//! What the entities of a map carry.

use crate::geometry::PointBits;
use vstd::prelude::*;

verus! {

/// The id of an entity.
pub type EntityId = u64;

/// The polygon of a cell.
#[derive(Clone, Debug)]
pub struct VoronoiCell {
    pub vertices: Vec<PointBits>,
}

/// The address of a campaign stop.
#[derive(Clone, Copy, Debug, PartialEq, Eq, Structural)]
pub struct Site {
    /// The stage.
    pub belt: u32,
    /// The place within the stage.
    pub site: u32,
}

/// The wall between two cells.
///
/// There is one for each pair of cells that share a wall. `from` and `to` are the
/// nodes of the two cells, in no particular direction.
#[derive(Clone, Copy, Debug)]
pub struct MapEdge {
    pub from: EntityId,
    pub to: EntityId,
    pub wall: [PointBits; 2],
}

/// The root of a map. Every node, path and edge of the map is a child of it.
#[derive(Clone, Copy, Debug, PartialEq, Eq, Structural)]
pub struct LevelMap {
    /// Width and height of the visible region.
    pub size: PointBits,
    /// The seed that made the map. Where the generator had to try again, it is not
    /// the seed that was asked for.
    pub seed: u64,
    /// The seed that was asked for.
    pub requested_seed: u64,
    /// The angle by which the map was turned, as the bits of a number.
    pub rotation: u32,
    /// What was subtracted from every y after that, as the bits of a number.
    pub y_offset: u32,
}

} // verus!
