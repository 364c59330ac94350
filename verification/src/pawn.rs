//! Tagged identity of a predicted pawn.

use vstd::prelude::*;

verus! {

/// Identity of a client-owned pawn: either a pure-state object or an entity.
/// The two cases are disjoint even when the inner keys collide numerically.
#[derive(Clone, Copy, Debug, Hash, PartialEq, Eq, Structural)]
pub enum PawnKey {
    State(u16),
    Entity(u16),
}

} // verus!
