use vstd::prelude::*;

verus! {

/// The four compass directions on the horizontal plane.
///
/// The plane is spanned by the `x` axis (east is positive) and the `z`
/// axis (south is positive).
#[derive(Debug, PartialEq, Eq, Clone, Copy, Structural)]
pub enum Direction {
    North,
    South,
    East,
    West,
}

/// The unit step `(dx, dz)` that a move in direction `d` makes.
pub open spec fn unit_step(d: Direction) -> (int, int) {
    match d {
        Direction::North => (0, -1),
        Direction::South => (0, 1),
        Direction::East => (1, 0),
        Direction::West => (-1, 0),
    }
}

/// The direction that points the other way.
pub open spec fn reverse(d: Direction) -> Direction {
    match d {
        Direction::North => Direction::South,
        Direction::South => Direction::North,
        Direction::East => Direction::West,
        Direction::West => Direction::East,
    }
}

impl Direction {
    /// The sign of the change that a translation in this direction makes to
    /// each coordinate, as `(dx, dz)`: north lowers `z`, south raises `z`,
    /// east raises `x` and west lowers `x`.
    pub fn translation(self) -> (step: (i8, i8))
        ensures
            step.0 as int == unit_step(self).0,
            step.1 as int == unit_step(self).1,
    {
        match self {
            Direction::North => (0, -1),
            Direction::South => (0, 1),
            Direction::East => (1, 0),
            Direction::West => (-1, 0),
        }
    }
}

/// A translation in one direction followed by one of the same distance in
/// the reverse direction leaves every coordinate where it was: the two unit
/// steps cancel, and each step moves along exactly one axis.
pub proof fn lemma_reverse_steps_cancel(d: Direction)
    ensures
        unit_step(d).0 + unit_step(reverse(d)).0 == 0,
        unit_step(d).1 + unit_step(reverse(d)).1 == 0,
        reverse(reverse(d)) == d,
        (unit_step(d).0 == 0) != (unit_step(d).1 == 0),
{
}

/// Each direction moves one unit along one axis: north lowers `z`, south
/// raises `z`, east raises `x` and west lowers `x`, and no two directions
/// make the same step.
pub proof fn lemma_step_directions(d: Direction)
    ensures
        unit_step(d).1 < 0 <==> d == Direction::North,
        unit_step(d).1 > 0 <==> d == Direction::South,
        unit_step(d).0 > 0 <==> d == Direction::East,
        unit_step(d).0 < 0 <==> d == Direction::West,
        unit_step(d).0 * unit_step(d).0 + unit_step(d).1 * unit_step(d).1 == 1,
{
}

} // verus!
