//! Compass directions in which a cell's neighbours lie.
use vstd::prelude::*;

verus! {

/// Direction to select a neighbour.
#[derive(Clone, Copy, Debug, PartialEq, Eq, Structural)]
pub enum Direction {
    /// North
    N,
    /// North East
    NE,
    /// East
    E,
    /// South East
    SE,
    /// South
    S,
    /// South West
    SW,
    /// West
    W,
    /// North West
    NW,
}

/// The steps, in cells of latitude and longitude, that a direction takes:
/// north and east count up, south and west down.
pub open spec fn lat_lon_steps(d: Direction) -> (i8, i8) {
    match d {
        Direction::SW => (-1i8, -1i8),
        Direction::S => (-1i8, 0i8),
        Direction::SE => (-1i8, 1i8),
        Direction::W => (0i8, -1i8),
        Direction::E => (0i8, 1i8),
        Direction::NW => (1i8, -1i8),
        Direction::N => (1i8, 0i8),
        Direction::NE => (1i8, 1i8),
    }
}

impl Direction {
    /// All directions in a single array, clockwise from north.
    pub const ALL: [Direction; 8] = [
        Direction::N,
        Direction::NE,
        Direction::E,
        Direction::SE,
        Direction::S,
        Direction::SW,
        Direction::W,
        Direction::NW,
    ];

    /// The latitude and longitude steps of this direction.
    pub fn to_lat_lon(self) -> (r: (i8, i8))
        ensures
            r == lat_lon_steps(self),
    {
        match self {
            Direction::SW => (-1, -1),
            Direction::S => (-1, 0),
            Direction::SE => (-1, 1),
            Direction::W => (0, -1),
            Direction::E => (0, 1),
            Direction::NW => (1, -1),
            Direction::N => (1, 0),
            Direction::NE => (1, 1),
        }
    }
}

/// Each direction steps by -1, 0 or 1 along each axis and never stands still, distinct
/// directions step differently, and `ALL` lists each of the eight directions once.
pub proof fn lemma_directions(a: Direction, b: Direction)
    ensures
        -1 <= lat_lon_steps(a).0 <= 1 && -1 <= lat_lon_steps(a).1 <= 1,
        lat_lon_steps(a) != (0i8, 0i8),
        a != b ==> lat_lon_steps(a) != lat_lon_steps(b),
        exists|i: int| 0 <= i < 8 && Direction::ALL@[i] == a,
        forall|i: int, j: int| 0 <= i < j < 8 ==> Direction::ALL@[i] != Direction::ALL@[j],
{
    assert(Direction::ALL@[0] == Direction::N);
    assert(Direction::ALL@[1] == Direction::NE);
    assert(Direction::ALL@[2] == Direction::E);
    assert(Direction::ALL@[3] == Direction::SE);
    assert(Direction::ALL@[4] == Direction::S);
    assert(Direction::ALL@[5] == Direction::SW);
    assert(Direction::ALL@[6] == Direction::W);
    assert(Direction::ALL@[7] == Direction::NW);
}

} // verus!
