use vstd::prelude::*;
use crate::geometry::Vec2;

verus! {

/// One flocking agent: a stable identity with its position and velocity.
#[derive(Clone, Copy, Debug, PartialEq, Eq, Structural)]
pub struct Boid {
    pub id: usize,
    pub position: Vec2,
    pub velocity: Vec2,
}

impl Boid {
    /// A resting agent at `position`.
    pub fn new(position: Vec2, id: usize) -> (r: Boid)
        ensures
            r == (Boid { id, position, velocity: Vec2 { x: 0, y: 0 } }),
    {
        Boid { id, position, velocity: Vec2 { x: 0, y: 0 } }
    }

    pub fn set_id(&mut self, id: usize)
        ensures
            *final(self) == (Boid { id, ..*old(self) }),
    {
        self.id = id;
    }

    pub fn set_position(&mut self, position: Vec2)
        ensures
            *final(self) == (Boid { position, ..*old(self) }),
    {
        self.position = position;
    }

    pub fn set_velocity(&mut self, velocity: Vec2)
        ensures
            *final(self) == (Boid { velocity, ..*old(self) }),
    {
        self.velocity = velocity;
    }

    pub fn get_position(&self) -> (r: Vec2)
        ensures
            r == self.position,
    {
        self.position
    }

    pub fn get_velocity(&self) -> (r: Vec2)
        ensures
            r == self.velocity,
    {
        self.velocity
    }
}

} // verus!
