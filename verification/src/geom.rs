//! Value types of the sampler: 3D points, circles, rotation directions,
//! and the error kinds shared by all parsers.

use vstd::prelude::*;

verus! {

/// Number of micro-units per coordinate unit (or per degree, for angles).
pub const MICRO: i64 = 1_000_000;

/// Largest magnitude, in micro-units, that a parsed scalar may have.
/// This is the representable range of the fixed-point coordinate model,
/// the analogue of a floating format's finite range; the numeric parser
/// rejects anything beyond it.
pub const VALUE_LIMIT: i64 = 100_000_000_000_000_000;

/// A point in 3D space; each coordinate counts micro-units.
#[derive(Debug, Clone, Copy, PartialEq, Eq, Structural)]
pub struct Point3D {
    pub x: i64,
    pub y: i64,
    pub z: i64,
}

impl Point3D {
    /// All coordinates lie within the representable range.
    pub open spec fn wf(self) -> bool {
        -(VALUE_LIMIT as int) <= self.x <= VALUE_LIMIT as int
            && -(VALUE_LIMIT as int) <= self.y <= VALUE_LIMIT as int
            && -(VALUE_LIMIT as int) <= self.z <= VALUE_LIMIT as int
    }
}

/// A circle in 3D space: a center and a radius in micro-units.
#[derive(Debug, Clone, Copy, PartialEq, Eq, Structural)]
pub struct Circle {
    pub center: Point3D,
    pub radius: i64,
}

impl Circle {
    pub open spec fn wf(self) -> bool {
        self.center.wf() && -(VALUE_LIMIT as int) <= self.radius <= VALUE_LIMIT as int
    }
}

/// The sense in which a rotational motion progresses from angle zero.
#[derive(Debug, Clone, Copy, PartialEq, Eq, Structural)]
pub enum RotationDirection {
    Clockwise,
    Counterclockwise,
}

/// Why a command line was rejected.
#[derive(Debug, Clone, Copy, PartialEq, Eq, Structural)]
pub enum MotionError {
    /// Wrong token or field count in a command or point literal.
    FormatError,
    /// A numeric field is not a valid real literal, or is out of the
    /// representable fixed-point range.
    NumericParseError,
    /// A direction token is neither `clockwise` nor `counterclockwise`.
    InvalidDirectionError,
}

} // verus!
