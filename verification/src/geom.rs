//! Sides of a grid cell, as bits of a mask, and how to step across them.

use vstd::prelude::*;

verus! {

/// The north side (up, y − 1).
pub const N: u8 = 1;
/// The east side (right, x + 1).
pub const E: u8 = 2;
/// The south side (down, y + 1).
pub const S: u8 = 4;
/// The west side (left, x − 1).
pub const W: u8 = 8;
/// On a wire cell where four sides meet: the two wires are joined.
pub const JOIN: u8 = 16;

/// `d` is one of the four sides.
pub open spec fn is_side(d: u8) -> bool {
    d == N || d == E || d == S || d == W
}

/// The mask has bit `d` set.
pub open spec fn joins(mask: u8, d: u8) -> bool {
    mask & d != 0
}

/// All four sides are set and the cell is not marked as a join.
pub open spec fn spec_crossing(mask: u8) -> bool {
    &&& joins(mask, N)
    &&& joins(mask, E)
    &&& joins(mask, S)
    &&& joins(mask, W)
    &&& !joins(mask, JOIN)
}

/// The step that crosses side `dir`; anything that is not N, E or S counts as W.
pub open spec fn spec_offset(dir: u8) -> (i32, i32) {
    if dir == N {
        (0, -1i32)
    } else if dir == E {
        (1, 0)
    } else if dir == S {
        (0, 1)
    } else {
        (-1i32, 0)
    }
}

/// The side facing back; anything that is not N, E or S counts as W.
pub open spec fn spec_opposite(dir: u8) -> u8 {
    if dir == N {
        S
    } else if dir == E {
        W
    } else if dir == S {
        N
    } else {
        E
    }
}

/// Both coordinates have a neighbour on each side that an `i32` can hold.
pub open spec fn inside(at: (i32, i32)) -> bool {
    i32::MIN < at.0 < i32::MAX && i32::MIN < at.1 < i32::MAX
}

/// The cell across side `dir` of `at`.
pub open spec fn step(at: (i32, i32), dir: u8) -> (i32, i32) {
    ((at.0 + spec_offset(dir).0) as i32, (at.1 + spec_offset(dir).1) as i32)
}

/// Two wires crossing over each other without touching.
pub fn crossing(mask: u8) -> (r: bool)
    ensures
        r == spec_crossing(mask),
{
    let r = mask & 15 == 15 && mask & JOIN == 0;
    assert(r == spec_crossing(mask)) by (bit_vector)
        requires
            r == (mask & 15 == 15 && mask & 16 == 0),
    ;
    r
}

/// The step across side `dir`.
pub fn offset(dir: u8) -> (r: (i32, i32))
    ensures
        r == spec_offset(dir),
{
    match dir {
        N => (0, -1),
        E => (1, 0),
        S => (0, 1),
        _ => (-1, 0),
    }
}

/// The side that faces back across the same edge.
pub fn opposite(dir: u8) -> (r: u8)
    ensures
        r == spec_opposite(dir),
{
    match dir {
        N => S,
        E => W,
        S => N,
        _ => E,
    }
}

/// Turning round twice faces the same way, and stepping out and back
/// returns to the same cell.
pub proof fn lemma_opposite_returns(at: (i32, i32), d: u8)
    requires
        is_side(d),
        inside(at),
    ensures
        is_side(spec_opposite(d)),
        spec_opposite(spec_opposite(d)) == d,
        spec_opposite(d) != d,
        step(step(at, d), spec_opposite(d)) == at,
{
}

/// Each side is a single bit of its own, and no side is the join bit.
pub proof fn lemma_side_bits(m: u8, d: u8)
    requires
        is_side(d),
    ensures
        joins(m | d, d),
        !joins(m & !d, d),
        forall|e: u8| is_side(e) && e != d ==> (joins(m | d, e) == joins(m, e) && joins(m & !d, e) == joins(m, e)),
        joins(m | d, JOIN) == joins(m, JOIN),
        joins(m & !d, JOIN) == joins(m, JOIN),
        d & JOIN == 0,
{
    assert forall|e: u8| is_side(e) && e != d implies (joins(m | d, e) == joins(m, e) && joins(m & !d, e) == joins(m, e)) by {
        assert((d == 1 || d == 2 || d == 4 || d == 8) && (e == 1 || e == 2 || e == 4 || e == 8) && e != d ==> ((m | d) & e != 0) == (m & e != 0) && ((m & !d) & e != 0) == (m & e != 0)) by (bit_vector);
    }
    assert((d == 1 || d == 2 || d == 4 || d == 8) ==> (m | d) & d != 0 && (m & !d) & d == 0 && ((m | d) & 16 != 0) == (m & 16 != 0) && ((m & !d) & 16 != 0) == (m & 16 != 0) && d & 16 == 0) by (bit_vector);
}

} // verus!
