//! The six axis directions of the lattice and the parsing of compass names.

use vstd::prelude::*;
use crate::text::str_eq;

verus! {

/// A direction along one of the lattice axes. East is +x, West is -x,
/// Up is +y, Down is -y, South is +z and North is -z.
#[derive(Debug, Clone, Copy, PartialEq, Eq, Structural, Hash)]
pub enum GlobalDirection {
    South,
    North,
    West,
    East,
    Up,
    Down,
}

/// A facing name that is not one of the four compass directions.
#[derive(Debug, Clone, Copy, PartialEq, Eq, Structural)]
pub struct InvalidDirection;

/// The compass direction that a facing name denotes, if any. Both the
/// capitalised and the lower-case spelling are accepted.
pub open spec fn direction_named(s: Seq<char>) -> Option<GlobalDirection> {
    if s == "South"@ || s == "south"@ {
        Some(GlobalDirection::South)
    } else if s == "North"@ || s == "north"@ {
        Some(GlobalDirection::North)
    } else if s == "West"@ || s == "west"@ {
        Some(GlobalDirection::West)
    } else if s == "East"@ || s == "east"@ {
        Some(GlobalDirection::East)
    } else {
        None
    }
}

/// The direction of the `k`-th unit offset of `unit_offset`
/// (+x, -x, +y, -y, +z, -z).
pub open spec fn offset_direction(k: int) -> GlobalDirection {
    if k == 0 {
        GlobalDirection::East
    } else if k == 1 {
        GlobalDirection::West
    } else if k == 2 {
        GlobalDirection::Up
    } else if k == 3 {
        GlobalDirection::Down
    } else if k == 4 {
        GlobalDirection::South
    } else {
        GlobalDirection::North
    }
}

/// The direction pointing the other way.
pub open spec fn opposite_of(d: GlobalDirection) -> GlobalDirection {
    match d {
        GlobalDirection::South => GlobalDirection::North,
        GlobalDirection::North => GlobalDirection::South,
        GlobalDirection::West => GlobalDirection::East,
        GlobalDirection::East => GlobalDirection::West,
        GlobalDirection::Up => GlobalDirection::Down,
        GlobalDirection::Down => GlobalDirection::Up,
    }
}

impl GlobalDirection {
    /// Reads a compass name ("south" or "South", and so on).
    pub fn parse(value: &str) -> (r: Result<GlobalDirection, InvalidDirection>)
        ensures
            r == (match direction_named(value@) {
                Some(d) => Ok::<GlobalDirection, InvalidDirection>(d),
                None => Err(InvalidDirection),
            }),
    {
        if str_eq(value, "South") || str_eq(value, "south") {
            Ok(GlobalDirection::South)
        } else if str_eq(value, "North") || str_eq(value, "north") {
            Ok(GlobalDirection::North)
        } else if str_eq(value, "West") || str_eq(value, "west") {
            Ok(GlobalDirection::West)
        } else if str_eq(value, "East") || str_eq(value, "east") {
            Ok(GlobalDirection::East)
        } else {
            Err(InvalidDirection)
        }
    }

    /// The direction pointing the other way.
    pub fn opposite(self) -> (r: GlobalDirection)
        ensures
            r == opposite_of(self),
    {
        match self {
            GlobalDirection::South => GlobalDirection::North,
            GlobalDirection::North => GlobalDirection::South,
            GlobalDirection::West => GlobalDirection::East,
            GlobalDirection::East => GlobalDirection::West,
            GlobalDirection::Up => GlobalDirection::Down,
            GlobalDirection::Down => GlobalDirection::Up,
        }
    }

    /// The direction of the `k`-th neighbour offset (+x, -x, +y, -y, +z, -z).
    pub fn of_offset(k: usize) -> (r: GlobalDirection)
        requires
            k < 6,
        ensures
            r == offset_direction(k as int),
    {
        if k == 0 {
            GlobalDirection::East
        } else if k == 1 {
            GlobalDirection::West
        } else if k == 2 {
            GlobalDirection::Up
        } else if k == 3 {
            GlobalDirection::Down
        } else if k == 4 {
            GlobalDirection::South
        } else {
            GlobalDirection::North
        }
    }
}

} // verus!
