//! Inserter orientation: which compass direction makes an inserter's
//! pickup and drop points land on the cells asked for, derived from the
//! prototype's own North-facing offsets rather than assumed.
use vstd::prelude::*;

use crate::layout::error::LayoutError;
use crate::prototype::{Direction, EntityPrototype, Frac};

verus! {

/// `f` negated.
pub open spec fn neg_frac(f: Frac) -> Frac {
    Frac { num: (-f.num) as i64, den: f.den }
}

/// A centre-relative offset turned clockwise by `turns` quarter turns, one
/// turn taking `(x, y)` to `(-y, x)`: North's `(0, -1)` becomes East's `(1, 0)`.
pub open spec fn rotated(p: (Frac, Frac), turns: nat) -> (Frac, Frac)
    decreases turns,
{
    if turns == 0 {
        p
    } else {
        let q = rotated(p, (turns - 1) as nat);
        (neg_frac(q.1), q.0)
    }
}

/// An offset rounded to a whole-cell delta.
pub open spec fn cell_delta(p: (Frac, Frac)) -> (int, int) {
    (p.0.spec_round(), p.1.spec_round())
}

/// Facing `d`, `proto` picks up from `pickup` and drops onto `insert`
/// (cell deltas from its own cell).
pub open spec fn lands(proto: EntityPrototype, d: Direction, pickup: (int, int), insert: (int, int)) -> bool {
    match (proto.pickup_position, proto.insert_position) {
        (Some(pk), Some(ins)) => cell_delta(rotated(pk, d.spec_turns() as nat)) == pickup && cell_delta(
            rotated(ins, d.spec_turns() as nat),
        ) == insert,
        _ => false,
    }
}

/// The first of North, East, South and West in which `proto` lands on the
/// two deltas, if any does.
pub open spec fn spec_inserter_direction(proto: EntityPrototype, pickup: (int, int), insert: (int, int)) -> Option<Direction> {
    if lands(proto, Direction::North, pickup, insert) {
        Some(Direction::North)
    } else if lands(proto, Direction::East, pickup, insert) {
        Some(Direction::East)
    } else if lands(proto, Direction::South, pickup, insert) {
        Some(Direction::South)
    } else if lands(proto, Direction::West, pickup, insert) {
        Some(Direction::West)
    } else {
        None
    }
}

proof fn lemma_rotated_wf(p: (Frac, Frac), turns: nat)
    requires
        p.0.wf() && p.1.wf(),
    ensures
        rotated(p, turns).0.wf() && rotated(p, turns).1.wf(),
    decreases turns,
{
    if turns > 0 {
        lemma_rotated_wf(p, (turns - 1) as nat);
    }
}

/// `p` turned `turns` quarter turns.
pub(crate) fn rotate(p: (Frac, Frac), turns: u8) -> (res: (Frac, Frac))
    requires
        p.0.wf() && p.1.wf(),
    ensures
        res == rotated(p, turns as nat),
        res.0.wf() && res.1.wf(),
{
    let mut q = p;
    let mut k: u8 = 0;
    while k < turns
        invariant
            k <= turns,
            p.0.wf() && p.1.wf(),
            q == rotated(p, k as nat),
            q.0.wf() && q.1.wf(),
        decreases turns - k,
    {
        q = (q.1.neg(), q.0);
        k = k + 1;
    }
    proof {
        lemma_rotated_wf(p, turns as nat);
    }
    q
}

/// Whether `proto` facing `d` picks up from `pickup` and drops onto `insert`.
fn lands_facing(proto: &EntityPrototype, d: Direction, pickup: (i64, i64), insert: (i64, i64)) -> (res: bool)
    requires
        proto.wf(),
    ensures
        res == lands(*proto, d, (pickup.0 as int, pickup.1 as int), (insert.0 as int, insert.1 as int)),
{
    match (proto.pickup_position, proto.insert_position) {
        (Some(pk), Some(ins)) => {
            let turns = d.as_u8() / 4;
            let a = rotate(pk, turns);
            let b = rotate(ins, turns);
            a.0.round() == pickup.0 && a.1.round() == pickup.1 && b.0.round() == insert.0 && b.1.round() == insert.1
        },
        _ => false,
    }
}

/// Which cardinal direction makes `proto`'s pickup and drop points land on
/// the two cell deltas asked for, North first; refused as not an inserter
/// when none does or the prototype has no pickup or drop point.
pub fn inserter_direction(proto: &EntityPrototype, pickup_delta: (i64, i64), insert_delta: (i64, i64)) -> (res: Result<
    Direction,
    LayoutError,
>)
    requires
        proto.wf(),
    ensures
        ({
            let want = spec_inserter_direction(
                *proto,
                (pickup_delta.0 as int, pickup_delta.1 as int),
                (insert_delta.0 as int, insert_delta.1 as int),
            );
            match want {
                Some(d) => res == Ok::<Direction, LayoutError>(d),
                None => res matches Err(LayoutError::InserterUnknown(n)) && n@ == proto.name@,
            }
        }),
{
    if lands_facing(proto, Direction::North, pickup_delta, insert_delta) {
        Ok(Direction::North)
    } else if lands_facing(proto, Direction::East, pickup_delta, insert_delta) {
        Ok(Direction::East)
    } else if lands_facing(proto, Direction::South, pickup_delta, insert_delta) {
        Ok(Direction::South)
    } else if lands_facing(proto, Direction::West, pickup_delta, insert_delta) {
        Ok(Direction::West)
    } else {
        Err(LayoutError::InserterUnknown(proto.name.clone()))
    }
}

} // verus!
