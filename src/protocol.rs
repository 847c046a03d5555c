//! Small value types shared with the protocol layer.
use vstd::prelude::*;

use crate::block::BlockLocation;

verus! {

/// A stage of mining a block.
#[derive(Copy, Clone, Debug, PartialEq, Eq, Structural)]
pub enum Mine {
    Start,
    Cancel,
    Finished,
}

/// A face of a block, in the protocol's numbering.
#[derive(Copy, Clone, Debug, PartialEq, Eq, Structural)]
pub enum Face {
    NegY,
    PosY,
    NegZ,
    PosZ,
    NegX,
    PosX,
}

/// The unit offset that points out of a face.
pub open spec fn face_offset(face: Face) -> (int, int, int) {
    match face {
        Face::NegY => (0, -1, 0),
        Face::PosY => (0, 1, 0),
        Face::NegZ => (0, 0, -1),
        Face::PosZ => (0, 0, 1),
        Face::NegX => (-1, 0, 0),
        Face::PosX => (1, 0, 0),
    }
}

impl Face {
    /// The face with protocol number `elem`.
    pub fn from_index(elem: u8) -> (r: Face)
        requires
            elem < 6,
        ensures
            elem == 0 ==> r == Face::NegY,
            elem == 1 ==> r == Face::PosY,
            elem == 2 ==> r == Face::NegZ,
            elem == 3 ==> r == Face::PosZ,
            elem == 4 ==> r == Face::NegX,
            elem == 5 ==> r == Face::PosX,
    {
        match elem {
            0 => Face::NegY,
            1 => Face::PosY,
            2 => Face::NegZ,
            3 => Face::PosZ,
            4 => Face::NegX,
            _ => Face::PosX,
        }
    }

    pub fn is_x(self) -> (r: bool)
        ensures
            r == (self == Face::PosX || self == Face::NegX),
    {
        match self {
            Face::PosX | Face::NegX => true,
            _ => false,
        }
    }

    pub fn is_y(self) -> (r: bool)
        ensures
            r == (self == Face::PosY || self == Face::NegY),
    {
        match self {
            Face::PosY | Face::NegY => true,
            _ => false,
        }
    }

    pub fn is_z(self) -> (r: bool)
        ensures
            r == (self == Face::PosZ || self == Face::NegZ),
    {
        match self {
            Face::PosZ | Face::NegZ => true,
            _ => false,
        }
    }

    /// The unit offset that points out of this face.
    pub fn change(self) -> (r: BlockLocation)
        ensures
            (r.x as int, r.y as int, r.z as int) == face_offset(self),
    {
        match self {
            Face::NegY => BlockLocation::new(0, -1, 0),
            Face::PosY => BlockLocation::new(0, 1, 0),
            Face::NegZ => BlockLocation::new(0, 0, -1),
            Face::PosZ => BlockLocation::new(0, 0, 1),
            Face::NegX => BlockLocation::new(-1, 0, 0),
            Face::PosX => BlockLocation::new(1, 0, 0),
        }
    }
}

/// A mouse button, as the protocol numbers them.
#[derive(Copy, Clone, Debug, PartialEq, Eq, Structural)]
pub enum MouseButton {
    Left,
    Right,
}

impl MouseButton {
    /// The protocol number of the button.
    pub fn code(self) -> (r: u8)
        ensures
            r == (if self == MouseButton::Left {
                0u8
            } else {
                1u8
            }),
    {
        match self {
            MouseButton::Left => 0,
            MouseButton::Right => 1,
        }
    }
}

} // verus!
