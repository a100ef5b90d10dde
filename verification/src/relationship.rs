//! The fixed relationship geometry of a table: seat order around a table of
//! 4 or 5 determines who is whose predator, prey, grand-predator or
//! grand-prey. Grand relations exist only at 5-seat tables; at a 4-seat
//! table the distance-2 pair has no relation of its own and counts as
//! cross-table.

use vstd::prelude::*;

verus! {

/// Positional relationship category for an ordered pair of seats.
#[derive(Debug, Clone, Copy, PartialEq, Eq, Structural)]
pub enum Relationship {
    Prey,
    GrandPrey,
    GrandPredator,
    Predator,
    CrossTable,
}

/// Clockwise seat distance from `a` to `b` around a table of `size` seats.
pub open spec fn seat_distance(size: int, a: int, b: int) -> int {
    if b >= a {
        b - a
    } else {
        b - a + size
    }
}

/// Whether seats `a` and `b` are adjacent around the table.
pub open spec fn neighbours_spec(size: int, a: int, b: int) -> bool {
    seat_distance(size, a, b) == 1 || seat_distance(size, a, b) == size - 1
}

/// The relationship of the player in seat `a` towards the player in seat
/// `b`: the next seat is one's prey, the previous one's predator; at a
/// 5-seat table the seats two away are grand-prey and grand-predator; the
/// remaining 4-seat pair has no relation (cross-table).
pub open spec fn relationship_spec(size: int, a: int, b: int) -> Relationship {
    let d = seat_distance(size, a, b);
    if d == 1 {
        Relationship::Prey
    } else if d == size - 1 {
        Relationship::Predator
    } else if size == 5 && d == 2 {
        Relationship::GrandPrey
    } else if size == 5 && d == 3 {
        Relationship::GrandPredator
    } else {
        Relationship::CrossTable
    }
}

/// Look up the relationship of seat `a` towards seat `b` at a table of
/// `size` seats.
pub fn relationship(size: usize, a: usize, b: usize) -> (r: Relationship)
    requires
        size == 4 || size == 5,
        a < size,
        b < size,
        a != b,
    ensures
        r == relationship_spec(size as int, a as int, b as int),
{
    let d = if b >= a {
        b - a
    } else {
        b + size - a
    };
    if d == 1 {
        Relationship::Prey
    } else if d == size - 1 {
        Relationship::Predator
    } else if size == 5 && d == 2 {
        Relationship::GrandPrey
    } else if size == 5 && d == 3 {
        Relationship::GrandPredator
    } else {
        Relationship::CrossTable
    }
}

/// Whether seats `a` and `b` are adjacent at a table of `size` seats.
pub fn neighbours(size: usize, a: usize, b: usize) -> (r: bool)
    requires
        size == 4 || size == 5,
        a < size,
        b < size,
        a != b,
    ensures
        r == neighbours_spec(size as int, a as int, b as int),
{
    let d = if b >= a {
        b - a
    } else {
        b + size - a
    };
    d == 1 || d == size - 1
}

} // verus!
