//! The point record.

use crate::binary64::non_negative;
use vstd::prelude::*;

verus! {

/// A point of the cloud. It has no identity of its own: a point is known by
/// the index it currently has in its store.
///
/// Every scalar is held as the IEEE-754 binary64 encoding of its value (what
/// `to_bits` gives), so that a point can be copied, stored and compared
/// exactly. The library moves these encodings around and orders them (see
/// [`crate::binary64`]); it never does arithmetic on them.
#[derive(Clone, Copy, Debug, PartialEq, Eq, Structural)]
pub struct Point3D {
    /// First coordinate.
    pub x: u64,
    /// Second coordinate.
    pub y: u64,
    /// Third coordinate.
    pub z: u64,
    /// Energy accumulated so far; zero for a fresh point.
    pub energy: u64,
    /// Whether the point has broken.
    pub broken: bool,
    /// The energy at which the point breaks.
    pub breaking_point: u64,
}

/// Whether a point still holds, and if so, up to which energy.
#[derive(Clone, Copy, Debug, PartialEq, Eq, Structural)]
pub enum BreakingPoint {
    /// The point has broken.
    Broken,
    /// The point is intact, and breaks at the given energy.
    Intact(u64),
}

impl Point3D {
    /// What holds of a point at all times: its energy is not below zero.
    pub open spec fn wf(self) -> bool {
        non_negative(self.energy)
    }

    /// A fresh point at `(x, y, z)`: intact, with no energy accumulated.
    pub fn new(x: u64, y: u64, z: u64, breaking_point: u64) -> (point: Point3D)
        ensures
            point == (Point3D { x, y, z, energy: 0, broken: false, breaking_point }),
            point.wf(),
    {
        Point3D { x, y, z, energy: 0, broken: false, breaking_point }
    }

    /// Whether the point still holds, and if so, up to which energy.
    pub fn breaking_state(&self) -> (state: BreakingPoint)
        ensures
            state == (if self.broken {
                BreakingPoint::Broken
            } else {
                BreakingPoint::Intact(self.breaking_point)
            }),
    {
        if self.broken {
            BreakingPoint::Broken
        } else {
            BreakingPoint::Intact(self.breaking_point)
        }
    }

    /// The same point at another position.
    pub open spec fn moved_to(self, position: (u64, u64, u64)) -> Point3D {
        Point3D { x: position.0, y: position.1, z: position.2, ..self }
    }

    /// The coordinates, in the order x, y, z.
    pub open spec fn position(self) -> Seq<u64> {
        seq![self.x, self.y, self.z]
    }
}

} // verus!
