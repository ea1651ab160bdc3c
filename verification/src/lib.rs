//! Level maps in the style of a star chart: stages of stops on a Voronoi diagram,
//! where every stop leads on to a stop of the next stage.
//!
//! [`generation`] makes a map out of a layout, [`spawn`] lists the entities that make
//! it up, and [`visit`] decides what a visit to one of them does to their states.

pub mod components;
pub mod config;
pub mod generation;
pub mod geometry;
pub mod graph;
pub mod relationships;
pub mod rng;
pub mod sequences;
pub mod spacing;
pub mod spawn;
pub mod state;
pub mod visit;

pub use components::{LevelMap, MapEdge, Site, VoronoiCell};
pub use config::{DesiredTraversals, LevelMapConfig, LevelMapPolicy};
pub use generation::{Generated, GenerationError};
pub use relationships::{EdgePaths, IncomingPaths, OutgoingPaths, PathEdges, PathFrom, PathTo};
pub use rng::LevelMapRng;
pub use spawn::{LevelMapSpawner, SpawnProgress};
pub use state::LocationState;
pub use visit::VisitLocation;
