use vstd::prelude::*;

verus! {

/// Sense along an axis; for rotations, positive is counter clockwise.
#[derive(Clone, Copy, Debug, PartialEq, Eq, Structural)]
pub enum Direction {
    Positive,
    Negative,
}

/// The axis and sense of a move on the ground.
#[derive(Clone, Copy, Debug, PartialEq, Eq, Structural)]
pub enum MovementAxis {
    X(Direction),
    Z(Direction),
}

/// The axis and sense of a rotation.
#[derive(Clone, Copy, Debug, PartialEq, Eq, Structural)]
pub enum RotationAxis {
    X(Direction),
    Z(Direction),
}

impl MovementAxis {
    /// The axis of a move from `start` to `end`, given as (x, z) pairs; the x
    /// axis wins when both change.
    pub fn from_move_xz(start: (u32, u32), end: (u32, u32)) -> (r: MovementAxis)
        requires
            start != end,
        ensures
            r == (if start.0 < end.0 {
                MovementAxis::X(Direction::Positive)
            } else if start.0 > end.0 {
                MovementAxis::X(Direction::Negative)
            } else if start.1 < end.1 {
                MovementAxis::Z(Direction::Positive)
            } else {
                MovementAxis::Z(Direction::Negative)
            }),
    {
        let (start_x, start_z) = start;
        let (end_x, end_z) = end;
        if start_x < end_x {
            MovementAxis::X(Direction::Positive)
        } else if start_x > end_x {
            MovementAxis::X(Direction::Negative)
        } else if start_z < end_z {
            MovementAxis::Z(Direction::Positive)
        } else {
            MovementAxis::Z(Direction::Negative)
        }
    }
}

impl RotationAxis {
    /// The rotation that rolls a box along `move_axis`: a move along x turns
    /// about z, a move along z turns about x, against the sense of the move.
    pub fn from_movement_axis(move_axis: &MovementAxis) -> (r: RotationAxis)
        ensures
            r == match *move_axis {
                MovementAxis::X(Direction::Positive) => RotationAxis::Z(Direction::Negative),
                MovementAxis::X(Direction::Negative) => RotationAxis::Z(Direction::Positive),
                MovementAxis::Z(Direction::Positive) => RotationAxis::X(Direction::Negative),
                MovementAxis::Z(Direction::Negative) => RotationAxis::X(Direction::Positive),
            },
    {
        match move_axis {
            MovementAxis::X(Direction::Positive) => RotationAxis::Z(Direction::Negative),
            MovementAxis::X(Direction::Negative) => RotationAxis::Z(Direction::Positive),
            MovementAxis::Z(Direction::Positive) => RotationAxis::X(Direction::Negative),
            MovementAxis::Z(Direction::Negative) => RotationAxis::X(Direction::Positive),
        }
    }
}

} // verus!
