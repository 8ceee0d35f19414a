//! Flocking agents ("boids") over a quadtree spatial index.
//!
//! Coordinates, velocities and time are whole numbers of world units, so
//! every rule of the simulation is stated and proved over exact integers.
//!
//! - `geometry`: planar vectors, half-open spans and integer division.
//! - `boid`: the agent record.
//! - `quadtree`: the spatial index and its structural laws.
//! - `resources`: the world's bound, its fixed quadrants and the live index.
//! - `boid_system`: the steering rules and the step that applies them.
//! - `simulator`: spawning agents and the cycle of the run state.

pub mod boid;
pub mod boid_system;
pub mod geometry;
pub mod quadtree;
pub mod resources;
pub mod simulator;

pub use boid::Boid;
pub use boid_system::{BoidSystem, TickOutcome};
pub use geometry::{Span, Vec2};
pub use quadtree::QuadTree;
pub use resources::{BoidInfo, CurrentState, WorldDimensions, WorldRegion};
pub use simulator::Simulator;
