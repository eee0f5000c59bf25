//! Entity prototypes and their baked descriptors: the closed set of
//! components an authored entity kind can carry.
use vstd::prelude::*;
use crate::pos::Pos;
use crate::registry::Id;

verus! {

/// Where an entity is, in blocks.
#[derive(Clone, Copy, Debug, PartialEq, Eq, Structural)]
pub struct PositionComp {
    pub position: Pos,
}

/// How an entity moves each tick, in blocks per tick.
#[derive(Clone, Copy, Debug, PartialEq, Eq, Structural)]
pub struct VelocityComp {
    pub dx: i64,
    pub dy: i64,
}

/// Marks an entity as colliding with solid blocks: its integration step
/// runs the swept test instead of moving unconditionally.
#[derive(Clone, Copy, Debug, PartialEq, Eq, Structural)]
pub struct HitboxComp {

}

/// The authored velocity component of an entity prototype.
#[derive(Clone, Copy, Debug, PartialEq, Eq, Structural)]
pub struct VelocityCompPrototype {
    pub dx: i64,
    pub dy: i64,
}

impl VelocityCompPrototype {
    /// The runtime component this prototype stamps out.
    pub fn create(&self) -> (r: VelocityComp)
        ensures
            r.dx == self.dx,
            r.dy == self.dy,
    {
        VelocityComp { dx: self.dx, dy: self.dy }
    }
}

/// An authored entity kind: position is always present, the other
/// components are optional.
#[derive(Clone, Copy, Debug)]
pub struct EntityPrototype {
    pub velocity: Option<VelocityCompPrototype>,
    pub hitbox: Option<HitboxComp>,
}

/// A baked entity descriptor: what `spawn` populates the component maps
/// from. Carries its own raw registry identifier.
#[derive(Clone, Copy, Debug)]
pub struct EntityDesc {
    pub id: u32,
    pub velocity: Option<VelocityComp>,
    pub hitbox: Option<HitboxComp>,
}

impl EntityPrototype {
    /// Bakes the prototype into the descriptor registered under `id`.
    pub fn bake(self, id: Id<EntityDesc>) -> (r: EntityDesc)
        ensures
            r.id as int == id.idx(),
            self.velocity matches Some(v) ==> r.velocity == Some(
                VelocityComp { dx: v.dx, dy: v.dy },
            ),
            self.velocity is None ==> r.velocity is None,
            r.hitbox == self.hitbox,
    {
        let velocity = match &self.velocity {
            Some(v) => Some(v.create()),
            None => None,
        };
        EntityDesc { id: id.raw(), velocity, hitbox: self.hitbox }
    }
}

} // verus!
