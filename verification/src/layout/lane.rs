//! Which lane of a belt an inserter drops onto. An inserter always drops on
//! the far lane of the belt it inserts into, the lane furthest from itself,
//! so a belt filled by inserters needs a machine column on each side to fill
//! both of its lanes.
use vstd::prelude::*;

verus! {

/// A tile of the layout grid.
#[derive(Debug, Clone, Copy, PartialEq, Eq, Hash, Structural)]
pub struct GridPos {
    pub x: i32,
    pub y: i32,
}

/// A belt lane, named by the side of the belt tile it runs on: a vertical
/// belt has East and West lanes, a horizontal one North and South.
#[derive(Debug, Clone, Copy, PartialEq, Eq, Hash, Structural)]
pub enum LaneSide {
    North,
    South,
    East,
    West,
}

/// The furthest an inserter reaches, in tiles (a long-handed inserter).
pub const MAX_REACH: i32 = 2;

/// The far lane of the belt at `belt` for an inserter at `inserter`, if the
/// inserter touches that belt at all.
pub open spec fn spec_drop_lane(inserter: GridPos, belt: GridPos) -> Option<LaneSide> {
    let dx = belt.x - inserter.x;
    let dy = belt.y - inserter.y;
    if dx == 0 && dy == 0 {
        None
    } else if dx == 0 && -MAX_REACH <= dy <= MAX_REACH {
        Some(if dy > 0 { LaneSide::South } else { LaneSide::North })
    } else if dy == 0 && -MAX_REACH <= dx <= MAX_REACH {
        Some(if dx > 0 { LaneSide::East } else { LaneSide::West })
    } else {
        None
    }
}

/// The lane an inserter at `inserter_cell` drops onto when it inserts into
/// `belt_cell`: always the far side. `None` when the cells are the same, not
/// orthogonally aligned, or further apart than an inserter reaches.
pub fn drop_lane(inserter_cell: GridPos, belt_cell: GridPos) -> (res: Option<LaneSide>)
    ensures
        res == spec_drop_lane(inserter_cell, belt_cell),
{
    let dx: i64 = belt_cell.x as i64 - inserter_cell.x as i64;
    let dy: i64 = belt_cell.y as i64 - inserter_cell.y as i64;
    if dx == 0 && dy == 0 {
        None
    } else if dx == 0 && -2 <= dy && dy <= 2 {
        Some(if dy > 0 { LaneSide::South } else { LaneSide::North })
    } else if dy == 0 && -2 <= dx && dx <= 2 {
        Some(if dx > 0 { LaneSide::East } else { LaneSide::West })
    } else {
        None
    }
}

/// Two inserters reaching the same belt tile from opposite sides drop onto
/// different lanes, so a belt between two machine columns has both of its
/// lanes filled, one by each column.
pub proof fn lemma_opposite_inserters_fill_both_lanes(belt: GridPos, a: GridPos, b: GridPos)
    requires
        spec_drop_lane(a, belt) is Some,
        spec_drop_lane(b, belt) is Some,
        (a.x < belt.x && belt.x < b.x) || (a.y < belt.y && belt.y < b.y),
    ensures
        spec_drop_lane(a, belt) != spec_drop_lane(b, belt),
{
}

/// An inserter reaches a belt exactly when the two tiles differ and lie in
/// one row or one column at most two tiles apart (a long-handed inserter's
/// reach); it then drops onto the belt's lane furthest from itself.
pub proof fn lemma_drop_lane_reach(inserter: GridPos, belt: GridPos)
    ensures
        spec_drop_lane(inserter, belt) is Some <==> ((inserter.x == belt.x && 1 <= (belt.y - inserter.y) * (belt.y
            - inserter.y) <= 4) || (inserter.y == belt.y && 1 <= (belt.x - inserter.x) * (belt.x - inserter.x) <= 4)),
        belt.x == inserter.x && inserter.y < belt.y <= inserter.y + 2 ==> spec_drop_lane(inserter, belt) == Some(LaneSide::South),
        belt.x == inserter.x && inserter.y - 2 <= belt.y < inserter.y ==> spec_drop_lane(inserter, belt) == Some(LaneSide::North),
        belt.y == inserter.y && inserter.x < belt.x <= inserter.x + 2 ==> spec_drop_lane(inserter, belt) == Some(LaneSide::East),
        belt.y == inserter.y && inserter.x - 2 <= belt.x < inserter.x ==> spec_drop_lane(inserter, belt) == Some(LaneSide::West),
{
    let dx = belt.x - inserter.x;
    let dy = belt.y - inserter.y;
    assert(1 <= dy * dy <= 4 <==> (dy != 0 && -2 <= dy <= 2)) by (nonlinear_arith);
    assert(1 <= dx * dx <= 4 <==> (dx != 0 && -2 <= dx <= 2)) by (nonlinear_arith);
}

/// The opposite side of a belt tile.
pub open spec fn opposite(l: LaneSide) -> LaneSide {
    match l {
        LaneSide::North => LaneSide::South,
        LaneSide::South => LaneSide::North,
        LaneSide::East => LaneSide::West,
        LaneSide::West => LaneSide::East,
    }
}

/// Reach is symmetric: an inserter at `a` reaches a belt at `b` exactly
/// when one at `b` reaches a belt at `a`, and the two drop on opposite
/// sides, each on the side away from itself.
pub proof fn lemma_drop_lane_symmetric(a: GridPos, b: GridPos)
    ensures
        spec_drop_lane(a, b) is Some <==> spec_drop_lane(b, a) is Some,
        spec_drop_lane(a, b) matches Some(l) ==> spec_drop_lane(b, a) == Some(opposite(l)),
{
}

} // verus!
