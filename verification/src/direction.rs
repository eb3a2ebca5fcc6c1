use vstd::prelude::*;

verus! {

/// One of the eight compass directions a word can run along, in the fixed
/// cyclic order used when searching for a placement.
#[derive(Debug, PartialEq, Eq, Structural, Clone, Copy)]
pub enum Direction {
    Up,
    Down,
    Left,
    Right,
    UpLeft,
    UpRight,
    DownLeft,
    DownRight,
}

impl Direction {
    /// Position of this direction in the fixed cyclic order, 1 through 8.
    pub open spec fn number(self) -> int {
        match self {
            Direction::Up => 1,
            Direction::Down => 2,
            Direction::Left => 3,
            Direction::Right => 4,
            Direction::UpLeft => 5,
            Direction::UpRight => 6,
            Direction::DownLeft => 7,
            Direction::DownRight => 8,
        }
    }

    /// The direction at a given position of the cyclic order, if any.
    pub open spec fn from_number_spec(number: u8) -> Option<Direction> {
        match number {
            1u8 => Some(Direction::Up),
            2u8 => Some(Direction::Down),
            3u8 => Some(Direction::Left),
            4u8 => Some(Direction::Right),
            5u8 => Some(Direction::UpLeft),
            6u8 => Some(Direction::UpRight),
            7u8 => Some(Direction::DownLeft),
            8u8 => Some(Direction::DownRight),
            _ => None,
        }
    }

    pub fn from_number(number: u8) -> (r: Option<Direction>)
        ensures
            r == Self::from_number_spec(number),
            1 <= number <= 8 ==> r is Some && r->0.number() == number,
            !(1 <= number <= 8) ==> r is None,
    {
        match number {
            1 => Some(Direction::Up),
            2 => Some(Direction::Down),
            3 => Some(Direction::Left),
            4 => Some(Direction::Right),
            5 => Some(Direction::UpLeft),
            6 => Some(Direction::UpRight),
            7 => Some(Direction::DownLeft),
            8 => Some(Direction::DownRight),
            _ => None,
        }
    }

    /// The successor in the cyclic order: position `number + 1`, wrapping
    /// from the last direction back to the first.
    pub open spec fn next_spec(self) -> Direction {
        match self {
            Direction::Up => Direction::Down,
            Direction::Down => Direction::Left,
            Direction::Left => Direction::Right,
            Direction::Right => Direction::UpLeft,
            Direction::UpLeft => Direction::UpRight,
            Direction::UpRight => Direction::DownLeft,
            Direction::DownLeft => Direction::DownRight,
            Direction::DownRight => Direction::Up,
        }
    }

    pub fn get_next_direction(&self) -> (r: Direction)
        ensures
            r == self.next_spec(),
    {
        match self {
            Direction::Up => Direction::Down,
            Direction::Down => Direction::Left,
            Direction::Left => Direction::Right,
            Direction::Right => Direction::UpLeft,
            Direction::UpLeft => Direction::UpRight,
            Direction::UpRight => Direction::DownLeft,
            Direction::DownLeft => Direction::DownRight,
            Direction::DownRight => Direction::Up,
        }
    }

    /// The row component of this direction's unit step.
    pub open spec fn row_delta(self) -> int {
        match self {
            Direction::Up => -1,
            Direction::Down => 1,
            Direction::Left => 0,
            Direction::Right => 0,
            Direction::UpLeft => -1,
            Direction::UpRight => -1,
            Direction::DownLeft => 1,
            Direction::DownRight => 1,
        }
    }

    /// The column component of this direction's unit step.
    pub open spec fn col_delta(self) -> int {
        match self {
            Direction::Up => 0,
            Direction::Down => 0,
            Direction::Left => -1,
            Direction::Right => 1,
            Direction::UpLeft => -1,
            Direction::UpRight => 1,
            Direction::DownLeft => -1,
            Direction::DownRight => 1,
        }
    }

    /// How far the successor stands from a reference direction, measured in
    /// cyclic advances: the count strictly decreases until the reference
    /// direction is reached again.
    pub open spec fn cyclic_distance(self, origin: Direction) -> int {
        if self.number() < origin.number() {
            origin.number() - self.number()
        } else {
            8 - (self.number() - origin.number())
        }
    }
}

/// The eight directions form a total cyclic order: advancing eight times
/// from any direction returns to that direction, and advancing from the
/// last direction in the order wraps to the first.
pub proof fn lemma_direction_cycle(d: Direction)
    ensures
        d.next_spec().next_spec().next_spec().next_spec().next_spec().next_spec().next_spec().next_spec()
            == d,
        Direction::DownRight.next_spec() == Direction::Up,
{
}

/// Advancing shortens the cyclic distance to the origin by one, until the
/// origin itself is reached (at which point the distance resets to eight).
pub proof fn lemma_cyclic_distance_step(d: Direction, origin: Direction)
    ensures
        1 <= d.cyclic_distance(origin) <= 8,
        d.next_spec() == origin <==> d.cyclic_distance(origin) == 1,
        d.next_spec() != origin ==> d.next_spec().cyclic_distance(origin) == d.cyclic_distance(origin) - 1,
{
}

/// Two directions at the same cyclic distance from an origin are the same
/// direction.
pub proof fn lemma_cyclic_distance_injective(d1: Direction, d2: Direction, origin: Direction)
    requires
        d1.cyclic_distance(origin) == d2.cyclic_distance(origin),
    ensures
        d1 == d2,
{
}

} // verus!
