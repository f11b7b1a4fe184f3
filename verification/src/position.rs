//! Current world-space position.

use vstd::prelude::*;
use crate::fix::{v2_ok, Vec2};

verus! {

/// The entity's current 2D location, mutated once per tick by integration
/// or by teleport actions.
#[derive(Clone, Copy, Debug)]
pub struct PositionComponent(pub Vec2);

/// The stored location is representable.
pub open spec fn position_ok(p: PositionComponent) -> bool {
    v2_ok(p.0)
}

} // verus!
