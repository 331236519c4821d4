use vstd::prelude::*;

use crate::text::{chars_of, lower, lowered, spells};

verus! {

/// One of the eight axes of movement. The variants are declared in the
/// order in which exits are listed to the player.
#[derive(Clone, Copy, Debug, PartialEq, Eq, Structural)]
pub enum Direction {
    North,
    South,
    East,
    West,
    Up,
    Down,
    In,
    Out,
}

/// The direction that leads back: east and west, north and south, up and
/// down, in and out are pairs.
pub open spec fn inverse(d: Direction) -> Direction {
    match d {
        Direction::North => Direction::South,
        Direction::South => Direction::North,
        Direction::East => Direction::West,
        Direction::West => Direction::East,
        Direction::Up => Direction::Down,
        Direction::Down => Direction::Up,
        Direction::In => Direction::Out,
        Direction::Out => Direction::In,
    }
}

/// Returns the opposite direction.
pub fn reverse_direction(direction: Direction) -> (r: Direction)
    ensures
        r == inverse(direction),
{
    match direction {
        Direction::North => Direction::South,
        Direction::South => Direction::North,
        Direction::East => Direction::West,
        Direction::West => Direction::East,
        Direction::Up => Direction::Down,
        Direction::Down => Direction::Up,
        Direction::In => Direction::Out,
        Direction::Out => Direction::In,
    }
}

/// Going back the way one came twice is going the way one came.
pub proof fn lemma_inverse_involution(d: Direction)
    ensures
        inverse(inverse(d)) == d,
        inverse(d) != d,
{
}

/// The direction that a word names, ignoring the case of its letters: the
/// full name of each of the eight, or the first letter of one of the six
/// that are not `in` and `out`.
pub open spec fn direction_of(token: Seq<char>) -> Option<Direction> {
    let w = lower(token);
    if w == "north"@ || w == "n"@ {
        Some(Direction::North)
    } else if w == "south"@ || w == "s"@ {
        Some(Direction::South)
    } else if w == "east"@ || w == "e"@ {
        Some(Direction::East)
    } else if w == "west"@ || w == "w"@ {
        Some(Direction::West)
    } else if w == "up"@ || w == "u"@ {
        Some(Direction::Up)
    } else if w == "down"@ || w == "d"@ {
        Some(Direction::Down)
    } else if w == "in"@ {
        Some(Direction::In)
    } else if w == "out"@ {
        Some(Direction::Out)
    } else {
        None
    }
}

/// The word by which a direction is named to the player.
pub open spec fn word_of(d: Direction) -> Seq<char> {
    match d {
        Direction::North => "north"@,
        Direction::South => "south"@,
        Direction::East => "east"@,
        Direction::West => "west"@,
        Direction::Up => "up"@,
        Direction::Down => "down"@,
        Direction::In => "in"@,
        Direction::Out => "out"@,
    }
}

/// Reads a direction from a word, as `direction_of` says.
pub fn str_to_direction(maybe_direction: &str) -> (r: Option<Direction>)
    ensures
        r == direction_of(maybe_direction@),
{
    let chars = chars_of(maybe_direction);
    direction_from_chars(&chars)
}

/// Reads a direction from the characters of a word.
pub fn direction_from_chars(token: &[char]) -> (r: Option<Direction>)
    ensures
        r == direction_of(token@),
{
    let w = lowered(token);
    if spells(&w, "north") || spells(&w, "n") {
        Some(Direction::North)
    } else if spells(&w, "south") || spells(&w, "s") {
        Some(Direction::South)
    } else if spells(&w, "east") || spells(&w, "e") {
        Some(Direction::East)
    } else if spells(&w, "west") || spells(&w, "w") {
        Some(Direction::West)
    } else if spells(&w, "up") || spells(&w, "u") {
        Some(Direction::Up)
    } else if spells(&w, "down") || spells(&w, "d") {
        Some(Direction::Down)
    } else if spells(&w, "in") {
        Some(Direction::In)
    } else if spells(&w, "out") {
        Some(Direction::Out)
    } else {
        None
    }
}

impl Direction {
    /// The word by which this direction is named to the player.
    pub fn word(self) -> (r: &'static str)
        ensures
            r@ == word_of(self),
    {
        match self {
            Direction::North => "north",
            Direction::South => "south",
            Direction::East => "east",
            Direction::West => "west",
            Direction::Up => "up",
            Direction::Down => "down",
            Direction::In => "in",
            Direction::Out => "out",
        }
    }

    /// The place of this direction in the order in which exits are listed.
    pub fn slot(self) -> (r: usize)
        ensures
            r == slot_of(self),
    {
        match self {
            Direction::North => 0,
            Direction::South => 1,
            Direction::East => 2,
            Direction::West => 3,
            Direction::Up => 4,
            Direction::Down => 5,
            Direction::In => 6,
            Direction::Out => 7,
        }
    }

    /// The direction at a place in the listing order.
    pub fn at_slot(i: usize) -> (r: Direction)
        requires
            i < 8,
        ensures
            slot_of(r) == i,
            r == direction_at(i as nat),
    {
        if i == 0 {
            Direction::North
        } else if i == 1 {
            Direction::South
        } else if i == 2 {
            Direction::East
        } else if i == 3 {
            Direction::West
        } else if i == 4 {
            Direction::Up
        } else if i == 5 {
            Direction::Down
        } else if i == 6 {
            Direction::In
        } else {
            Direction::Out
        }
    }
}

/// The place of a direction in the order north, south, east, west, up, down,
/// in, out.
pub open spec fn slot_of(d: Direction) -> nat {
    match d {
        Direction::North => 0,
        Direction::South => 1,
        Direction::East => 2,
        Direction::West => 3,
        Direction::Up => 4,
        Direction::Down => 5,
        Direction::In => 6,
        Direction::Out => 7,
    }
}

/// The direction at a place in the order north, south, east, west, up,
/// down, in, out.
pub open spec fn direction_at(i: nat) -> Direction {
    if i == 0 {
        Direction::North
    } else if i == 1 {
        Direction::South
    } else if i == 2 {
        Direction::East
    } else if i == 3 {
        Direction::West
    } else if i == 4 {
        Direction::Up
    } else if i == 5 {
        Direction::Down
    } else if i == 6 {
        Direction::In
    } else {
        Direction::Out
    }
}

/// Each place in the listing order holds exactly one direction.
pub proof fn lemma_slot_injective(a: Direction, b: Direction)
    ensures
        slot_of(a) < 8,
        slot_of(a) == slot_of(b) ==> a == b,
{
}

} // verus!
