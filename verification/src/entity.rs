//! Identities of mirror entities.
use vstd::prelude::*;

verus! {

/// Identity of one entity of the mirror.
///
/// The mirror hands out entities in increasing order and never hands out
/// the same one twice.
#[derive(Clone, Copy, Debug, PartialEq, Eq, Hash, Structural)]
pub struct Entity {
    pub id: u64,
}

impl Entity {
    /// The entity with the given number.
    pub fn from_raw(id: u64) -> (entity: Entity)
        ensures
            entity.id == id,
    {
        Entity { id }
    }

    /// The number of this entity.
    pub fn id(&self) -> (id: u64)
        ensures
            id == self.id,
    {
        self.id
    }
}

} // verus!
