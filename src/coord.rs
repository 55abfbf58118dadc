use vstd::prelude::*;

verus! {

/// A position on the world grid: `z` selects the map layer, `x` grows to the
/// east and `y` grows to the south.
#[derive(Clone, Copy, Debug, PartialEq, Eq, Hash, Structural)]
pub struct Coord {
    pub x: usize,
    pub y: usize,
    pub z: usize,
}

/// One of the four cardinal directions of movement.
#[derive(Clone, Copy, Debug, PartialEq, Eq, Hash, Structural)]
pub enum Direction {
    North,
    East,
    West,
    South,
}

/// The coordinate one step from `c` in direction `d`, if it is representable.
pub open spec fn step(c: Coord, d: Direction) -> Option<Coord> {
    match d {
        Direction::North => if c.y > 0 {
            Some(Coord { x: c.x, y: (c.y - 1) as usize, z: c.z })
        } else {
            None
        },
        Direction::East => if c.x < usize::MAX {
            Some(Coord { x: (c.x + 1) as usize, y: c.y, z: c.z })
        } else {
            None
        },
        Direction::West => if c.x > 0 {
            Some(Coord { x: (c.x - 1) as usize, y: c.y, z: c.z })
        } else {
            None
        },
        Direction::South => if c.y < usize::MAX {
            Some(Coord { x: c.x, y: (c.y + 1) as usize, z: c.z })
        } else {
            None
        },
    }
}

/// The direction that undoes a step in direction `d`.
pub open spec fn opposite(d: Direction) -> Direction {
    match d {
        Direction::North => Direction::South,
        Direction::East => Direction::West,
        Direction::West => Direction::East,
        Direction::South => Direction::North,
    }
}

impl Coord {
    /// The neighbouring coordinate in `direction`; `None` where the step
    /// would leave the range of the coordinate type (the grid's edge at 0).
    pub fn apply(&self, direction: &Direction) -> (r: Option<Coord>)
        ensures
            r == step(*self, *direction),
    {
        match direction {
            Direction::North => if self.y > 0 {
                Some(Coord { x: self.x, y: self.y - 1, z: self.z })
            } else {
                None
            },
            Direction::East => if self.x < usize::MAX {
                Some(Coord { x: self.x + 1, y: self.y, z: self.z })
            } else {
                None
            },
            Direction::West => if self.x > 0 {
                Some(Coord { x: self.x - 1, y: self.y, z: self.z })
            } else {
                None
            },
            Direction::South => if self.y < usize::MAX {
                Some(Coord { x: self.x, y: self.y + 1, z: self.z })
            } else {
                None
            },
        }
    }
}

impl Direction {
    /// The lower-case English name of the direction.
    pub fn lowercase_string(&self) -> (r: &'static str)
        ensures
            r@ == direction_name(*self),
    {
        match self {
            Direction::North => "north",
            Direction::East => "east",
            Direction::West => "west",
            Direction::South => "south",
        }
    }
}

/// The lower-case English name of `d`.
pub open spec fn direction_name(d: Direction) -> Seq<char> {
    match d {
        Direction::North => "north"@,
        Direction::East => "east"@,
        Direction::West => "west"@,
        Direction::South => "south"@,
    }
}

/// A step and the opposite step return to the start.
pub proof fn lemma_step_opposite(c: Coord, d: Direction)
    ensures
        step(c, d) matches Some(n) ==> step(n, opposite(d)) == Some(c),
{
}

} // verus!
