//! Bodies and what becomes of two that meet in one place.

use vstd::prelude::*;
use crate::geometry::Point;

verus! {

/// A point mass with an identity.
#[derive(Clone, Copy, Debug, PartialEq, Eq, Structural)]
pub struct Body {
    pub id: u64,
    pub mass: u64,
    pub position: Point,
}

/// What a collision leaves in a cell: the body that was there first keeps
/// its identity and position and takes on the mass of the other.
pub open spec fn fuse(first: Body, second: Body) -> Body {
    Body { id: first.id, mass: (first.mass + second.mass) as u64, position: first.position }
}


/// What two trees hold together in one cell.
pub open spec fn join(first: Option<Body>, second: Option<Body>) -> Option<Body> {
    match (first, second) {
        (None, _) => second,
        (_, None) => first,
        (Some(a), Some(b)) => Some(fuse(a, b)),
    }
}


/// What a cell holds after a body arrives in it.
pub open spec fn settle(resident: Option<Body>, body: Body, incoming_first: bool) -> Body {
    match resident {
        None => body,
        Some(r) => if incoming_first {
            fuse(body, r)
        } else {
            fuse(r, body)
        },
    }
}

} // verus!
