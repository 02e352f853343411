//! A finished grid as the checks read it: each entity's prototype, kind,
//! footprint, facing, recipe and inserter filters, and the questions asked
//! of it (what stands on a tile, where an inserter picks up and drops, which
//! belt run a belt tile belongs to).
use vstd::prelude::*;

use crate::layout::lane::GridPos;
use crate::layout::orient::{cell_delta, rotate, rotated};
use crate::prototype::{Direction, EntityCategory, EntityPrototype, Prototypes};
use crate::registry::{unique_keys, Named};
use crate::text::name_eq;

verus! {

/// One entity standing on the grid.
#[derive(Debug)]
pub struct PlacedEntity {
    pub name: String,
    pub category: EntityCategory,
    pub top_left: GridPos,
    /// Footprint as faced, in tiles.
    pub size: (u32, u32),
    pub direction: Direction,
    pub recipe: Option<String>,
    /// Item filters of an inserter, in order; empty when unfiltered.
    pub filters: Vec<String>,
}

/// `e`'s footprint covers tile `(x, y)`.
pub open spec fn covers(e: PlacedEntity, x: int, y: int) -> bool {
    e.top_left.x <= x < e.top_left.x + e.size.0 && e.top_left.y <= y < e.top_left.y + e.size.1
}

/// The first entity from position `k` on whose footprint covers `(x, y)`.
pub open spec fn first_at_from(grid: Seq<PlacedEntity>, x: int, y: int, k: int) -> Option<int>
    decreases grid.len() - k,
{
    if k < 0 || k >= grid.len() {
        None
    } else if covers(grid[k], x, y) {
        Some(k)
    } else {
        first_at_from(grid, x, y, k + 1)
    }
}

/// The entity standing on `(x, y)`: the first whose footprint covers it.
pub open spec fn entity_at(grid: Seq<PlacedEntity>, x: int, y: int) -> Option<int> {
    first_at_from(grid, x, y, 0)
}

proof fn lemma_first_at_from(grid: Seq<PlacedEntity>, x: int, y: int, k: int)
    requires
        0 <= k <= grid.len(),
    ensures
        first_at_from(grid, x, y, k) matches Some(i) ==> k <= i < grid.len() && covers(grid[i], x, y) && forall|j: int|
            k <= j < i ==> !covers(#[trigger] grid[j], x, y),
        first_at_from(grid, x, y, k) is None ==> forall|j: int| k <= j < grid.len() ==> !covers(#[trigger] grid[j], x, y),
    decreases grid.len() - k,
{
    if k < grid.len() {
        lemma_first_at_from(grid, x, y, k + 1);
    }
}

/// The entity standing on `(x, y)`, by position in `grid`.
pub fn get_at(grid: &Vec<PlacedEntity>, x: i128, y: i128) -> (res: Option<usize>)
    ensures
        res matches Some(i) ==> entity_at(grid@, x as int, y as int) == Some(i as int),
        res is None ==> entity_at(grid@, x as int, y as int) is None,
        res matches Some(i) ==> i < grid@.len() && covers(grid@[i as int], x as int, y as int),
{
    let mut k: usize = 0;
    proof {
        lemma_first_at_from(grid@, x as int, y as int, 0);
    }
    while k < grid.len()
        invariant
            k <= grid@.len(),
            forall|j: int| 0 <= j < k ==> !covers(#[trigger] grid@[j], x as int, y as int),
        decreases grid.len() - k,
    {
        let e = &grid[k];
        let ex = e.top_left.x as i128;
        let ey = e.top_left.y as i128;
        if ex <= x && x < ex + e.size.0 as i128 && ey <= y && y < ey + e.size.1 as i128 {
            proof {
                lemma_first_at_from(grid@, x as int, y as int, 0);
                assert(covers(grid@[k as int], x as int, y as int));
                if entity_at(grid@, x as int, y as int) != Some(k as int) {
                    let i = entity_at(grid@, x as int, y as int)->0;
                    if i < k {
                        assert(!covers(grid@[i], x as int, y as int));
                    }
                }
            }
            return Some(k);
        }
        k = k + 1;
    }
    proof {
        lemma_first_at_from(grid@, x as int, y as int, 0);
        if entity_at(grid@, x as int, y as int) is Some {
            let i = entity_at(grid@, x as int, y as int)->0;
            assert(!covers(grid@[i], x as int, y as int));
        }
    }
    None
}

/// The prototype named `name` among `ps`, the first one so named.
pub open spec fn proto_named_from(ps: Seq<EntityPrototype>, name: Seq<char>, k: int) -> Option<EntityPrototype>
    decreases ps.len() - k,
{
    if k < 0 || k >= ps.len() {
        None
    } else if ps[k].name@ == name {
        Some(ps[k])
    } else {
        proto_named_from(ps, name, k + 1)
    }
}

pub open spec fn proto_named(ps: Seq<EntityPrototype>, name: Seq<char>) -> Option<EntityPrototype> {
    proto_named_from(ps, name, 0)
}

proof fn lemma_proto_named_from(ps: Seq<EntityPrototype>, name: Seq<char>, k: int, i: int)
    requires
        0 <= k <= i < ps.len(),
        ps[i].name@ == name,
        unique_keys(ps),
    ensures
        proto_named_from(ps, name, k) == Some(ps[i]),
    decreases i - k,
{
    if k < i {
        assert(ps[k].key() != ps[i].key());
        lemma_proto_named_from(ps, name, k + 1, i);
    }
}

proof fn lemma_proto_named_none(ps: Seq<EntityPrototype>, name: Seq<char>, k: int)
    requires
        0 <= k <= ps.len(),
        forall|i: int| 0 <= i < ps.len() ==> #[trigger] ps[i].name@ != name,
    ensures
        proto_named_from(ps, name, k) is None,
    decreases ps.len() - k,
{
    if k < ps.len() {
        lemma_proto_named_none(ps, name, k + 1);
    }
}

/// The prototype named `name`, as `proto_named` gives it.
pub fn find_proto<'a>(protos: &'a Prototypes, name: &str) -> (res: Option<&'a EntityPrototype>)
    ensures
        res matches Some(p) ==> proto_named(protos.spec_entries(), name@) == Some(*p) && p.wf(),
        res is None ==> proto_named(protos.spec_entries(), name@) is None,
{
    let all = protos.entries();
    let r = protos.lookup(name);
    proof {
        match r {
            Some(p) => {
                let i = choose|i: int| 0 <= i < protos.spec_entries().len() && protos.spec_entries()[i] == *p;
                lemma_proto_named_from(protos.spec_entries(), name@, 0, i);
            },
            None => {
                lemma_proto_named_none(protos.spec_entries(), name@, 0);
            },
        }
    }
    r
}

/// An inserter's pickup and drop tiles: its own tile moved by its
/// prototype's North-facing offsets, turned to its placed facing and
/// rounded. `None` when the prototype is unknown or has no such offsets.
pub open spec fn spec_inserter_cells(e: PlacedEntity, ps: Seq<EntityPrototype>) -> Option<((int, int), (int, int))> {
    match proto_named(ps, e.name@) {
        Some(p) => match (p.pickup_position, p.insert_position) {
            (Some(pk), Some(ins)) => {
                let turns = e.direction.spec_turns() as nat;
                let a = cell_delta(rotated(pk, turns));
                let b = cell_delta(rotated(ins, turns));
                Some(((e.top_left.x + a.0, e.top_left.y + a.1), (e.top_left.x + b.0, e.top_left.y + b.1)))
            },
            _ => None,
        },
        None => None,
    }
}

/// An inserter's pickup and drop tiles; see `spec_inserter_cells`.
pub fn inserter_cells(e: &PlacedEntity, protos: &Prototypes) -> (res: Option<((i128, i128), (i128, i128))>)
    ensures
        match res {
            Some((a, b)) => spec_inserter_cells(*e, protos.spec_entries()) == Some(((a.0 as int, a.1 as int), (b.0 as int, b.1 as int))),
            None => spec_inserter_cells(*e, protos.spec_entries()) is None,
        },
{
    let p = match find_proto(protos, e.name.as_str()) {
        Some(p) => p,
        None => return None,
    };
    match (p.pickup_position, p.insert_position) {
        (Some(pk), Some(ins)) => {
            let turns = e.direction.as_u8() / 4;
            let a = rotate(pk, turns);
            let b = rotate(ins, turns);
            let x = e.top_left.x as i128;
            let y = e.top_left.y as i128;
            Some(((x + a.0.round() as i128, y + a.1.round() as i128), (x + b.0.round() as i128, y + b.1.round() as i128)))
        },
        _ => None,
    }
}

/// The step a belt run is walked back along: up for a vertical belt, left
/// for a horizontal one.
pub open spec fn walk_step(d: Direction) -> (int, int) {
    match d {
        Direction::North | Direction::South => (0, -1),
        _ => (-1, 0),
    }
}

/// The tile `j` steps back from `belt` along its run holds a belt of the
/// same prototype facing the same way.
pub open spec fn run_continues(grid: Seq<PlacedEntity>, belt: PlacedEntity, j: int) -> bool {
    let s = walk_step(belt.direction);
    match entity_at(grid, belt.top_left.x + j * s.0, belt.top_left.y + j * s.1) {
        Some(i) => grid[i].name@ == belt.name@ && grid[i].direction == belt.direction,
        None => false,
    }
}

/// The run of `belt` reaches back exactly `k` tiles.
pub open spec fn run_length(grid: Seq<PlacedEntity>, belt: PlacedEntity, k: int) -> bool {
    &&& k >= 0
    &&& forall|j: int| 1 <= j <= k ==> #[trigger] run_continues(grid, belt, j)
    &&& !run_continues(grid, belt, k + 1)
}

/// The anchor tile of `belt`'s run: the tile its run reaches back to.
pub open spec fn spec_run_anchor(grid: Seq<PlacedEntity>, belt: PlacedEntity) -> GridPos {
    let k = choose|k: int| run_length(grid, belt, k);
    let s = walk_step(belt.direction);
    GridPos { x: (belt.top_left.x + k * s.0) as i32, y: (belt.top_left.y + k * s.1) as i32 }
}

/// The least top-left coordinates over `grid`.
pub open spec fn lowest(grid: Seq<PlacedEntity>) -> int
    decreases grid.len(),
{
    if grid.len() == 0 {
        0
    } else {
        let rest = lowest(grid.drop_last());
        let e = grid.last();
        let here = e.top_left.x + e.top_left.y;
        if grid.len() == 1 || here < rest {
            here
        } else {
            rest
        }
    }
}

proof fn lemma_lowest(grid: Seq<PlacedEntity>, i: int)
    requires
        0 <= i < grid.len(),
    ensures
        lowest(grid) <= grid[i].top_left.x + grid[i].top_left.y,
    decreases grid.len(),
{
    if i < grid.len() - 1 {
        lemma_lowest(grid.drop_last(), i);
        assert(grid.drop_last()[i] == grid[i]);
    }
}

/// The canonical tile of the belt run `belt` belongs to, found by walking
/// back along the belt's own flow axis (read from its placed facing) while
/// the neighbouring tile holds a belt of the same prototype and facing.
/// Every tile of one run gives the same anchor; a different prototype, a
/// different facing or a gap of empty ground ends the walk.
pub fn run_anchor(grid: &Vec<PlacedEntity>, belt: &PlacedEntity) -> (res: GridPos)
    ensures
        exists|k: int| #[trigger] run_length(grid@, *belt, k) && res.x == belt.top_left.x + k * walk_step(belt.direction).0
            && res.y == belt.top_left.y + k * walk_step(belt.direction).1,
        res == spec_run_anchor(grid@, *belt),
{
    let (dx, dy): (i128, i128) = match belt.direction {
        Direction::North | Direction::South => (0, -1),
        _ => (-1, 0),
    };
    let ghost s = walk_step(belt.direction);
    let bx = belt.top_left.x as i128;
    let by = belt.top_left.y as i128;
    let mut cx: i128 = bx;
    let mut cy: i128 = by;
    let ghost mut k: int = 0;
    let ghost low = if grid@.len() == 0 { belt.top_left.x + belt.top_left.y } else if lowest(grid@) < belt.top_left.x + belt.top_left.y { lowest(grid@) } else { belt.top_left.x + belt.top_left.y };
    loop
        invariant
            s == walk_step(belt.direction),
            (dx as int, dy as int) == s,
            k >= 0,
            cx == bx + k * s.0,
            cy == by + k * s.1,
            bx == belt.top_left.x,
            by == belt.top_left.y,
            forall|j: int| 1 <= j <= k ==> #[trigger] run_continues(grid@, *belt, j),
            cx + cy >= low,
            low <= belt.top_left.x + belt.top_left.y,
            grid@.len() > 0 ==> low <= lowest(grid@),
            cx <= bx && cy <= by,
            s.0 == 0 ==> cx == bx,
            s.1 == 0 ==> cy == by,
            cx >= i32::MIN && cy >= i32::MIN,
        ensures
            cx <= bx && cy <= by,
            cx >= i32::MIN && cy >= i32::MIN,
            run_length(grid@, *belt, k),
            cx == bx + k * s.0,
            cy == by + k * s.1,
        decreases cx + cy - low,
    {
        proof {
            assert((k + 1) * s.0 == k * s.0 + s.0) by (nonlinear_arith);
            assert((k + 1) * s.1 == k * s.1 + s.1) by (nonlinear_arith);
        }
        let nx = cx + dx;
        let ny = cy + dy;
        match get_at(grid, nx, ny) {
            Some(i) => {
                if grid[i].direction == belt.direction && name_eq(grid[i].name.as_str(), belt.name.as_str()) {
                    proof {
                        assert(nx == belt.top_left.x + (k + 1) * s.0);
                        assert(ny == belt.top_left.y + (k + 1) * s.1);
                        assert(run_continues(grid@, *belt, k + 1));
                        lemma_lowest(grid@, i as int);
                        assert(covers(grid@[i as int], nx as int, ny as int));
                        k = k + 1;
                    }
                    cx = nx;
                    cy = ny;
                } else {
                    proof {
                        assert(nx == belt.top_left.x + (k + 1) * s.0);
                        assert(ny == belt.top_left.y + (k + 1) * s.1);
                    }
                    break;
                }
            },
            None => {
                proof {
                    assert(nx == belt.top_left.x + (k + 1) * s.0);
                    assert(ny == belt.top_left.y + (k + 1) * s.1);
                }
                break;
            },
        }
    }
    proof {
        assert(run_length(grid@, *belt, k));
    }
    let res = GridPos { x: cx as i32, y: cy as i32 };
    proof {
        assert(res.x == belt.top_left.x + k * walk_step(belt.direction).0);
        assert(res.y == belt.top_left.y + k * walk_step(belt.direction).1);
        let k2 = choose|k2: int| run_length(grid@, *belt, k2);
        if k2 < k {
            assert(run_continues(grid@, *belt, k2 + 1));
        } else if k2 > k {
            assert(run_continues(grid@, *belt, k + 1));
        }
    }
    res
}

/// A belt run reaches back one length only.
proof fn lemma_run_length_unique(grid: Seq<PlacedEntity>, belt: PlacedEntity, k1: int, k2: int)
    requires
        run_length(grid, belt, k1),
        run_length(grid, belt, k2),
    ensures
        k1 == k2,
{
    if k1 < k2 {
        assert(run_continues(grid, belt, k1 + 1));
    } else if k2 < k1 {
        assert(run_continues(grid, belt, k2 + 1));
    }
}

/// Every tile of one belt run gives the same anchor: the belt standing one
/// step back along the run reaches back one tile less, to the same anchor.
pub proof fn lemma_run_shares_anchor(grid: Seq<PlacedEntity>, belt: PlacedEntity, k: int, i: int)
    requires
        run_length(grid, belt, k),
        k >= 1,
        entity_at(grid, belt.top_left.x + walk_step(belt.direction).0, belt.top_left.y + walk_step(belt.direction).1) == Some(i),
        grid[i].top_left.x == belt.top_left.x + walk_step(belt.direction).0,
        grid[i].top_left.y == belt.top_left.y + walk_step(belt.direction).1,
    ensures
        run_length(grid, grid[i], k - 1),
        spec_run_anchor(grid, grid[i]) == spec_run_anchor(grid, belt),
{
    let e = grid[i];
    let s = walk_step(belt.direction);
    assert(run_continues(grid, belt, 1));
    assert(e.name@ == belt.name@ && e.direction == belt.direction);
    assert forall|j: int| #![trigger run_continues(grid, e, j)] run_continues(grid, e, j) == run_continues(grid, belt, j + 1) by {
        assert(e.top_left.x + j * s.0 == belt.top_left.x + (j + 1) * s.0) by (nonlinear_arith)
            requires
                e.top_left.x == belt.top_left.x + s.0,
        ;
        assert(e.top_left.y + j * s.1 == belt.top_left.y + (j + 1) * s.1) by (nonlinear_arith)
            requires
                e.top_left.y == belt.top_left.y + s.1,
        ;
    }
    assert forall|j: int| 1 <= j <= k - 1 implies #[trigger] run_continues(grid, e, j) by {
        assert(run_continues(grid, belt, j + 1));
    }
    assert(run_length(grid, e, k - 1));
    let ke = choose|k2: int| run_length(grid, e, k2);
    lemma_run_length_unique(grid, e, ke, k - 1);
    let kb = choose|k2: int| run_length(grid, belt, k2);
    lemma_run_length_unique(grid, belt, kb, k);
    assert((k - 1) * s.0 + s.0 == k * s.0 && (k - 1) * s.1 + s.1 == k * s.1) by (nonlinear_arith);
}

/// The anchor tile of a belt standing on its own tile holds a belt of the
/// run's own prototype and facing.
proof fn lemma_anchor_holds_the_run(grid: Seq<PlacedEntity>, belt: PlacedEntity, i0: int, k: int) -> (i: int)
    requires
        run_length(grid, belt, k),
        entity_at(grid, belt.top_left.x as int, belt.top_left.y as int) == Some(i0),
        grid[i0].name@ == belt.name@,
        grid[i0].direction == belt.direction,
    ensures
        entity_at(grid, spec_run_anchor(grid, belt).x as int, spec_run_anchor(grid, belt).y as int) == Some(i),
        grid[i].name@ == belt.name@,
        grid[i].direction == belt.direction,
{
    let s = walk_step(belt.direction);
    let kb = choose|k2: int| run_length(grid, belt, k2);
    lemma_run_length_unique(grid, belt, kb, k);
    let x = belt.top_left.x + k * s.0;
    let y = belt.top_left.y + k * s.1;
    assert(x <= belt.top_left.x && y <= belt.top_left.y) by (nonlinear_arith)
        requires
            x == belt.top_left.x + k * s.0,
            y == belt.top_left.y + k * s.1,
            k >= 0,
            s.0 == 0 || s.0 == -1,
            s.1 == 0 || s.1 == -1,
    ;
    if k == 0 {
        assert(x == belt.top_left.x && y == belt.top_left.y);
        i0
    } else {
        assert(run_continues(grid, belt, k));
        let i = entity_at(grid, x, y)->0;
        lemma_first_at_from(grid, x, y, 0);
        assert(covers(grid[i], x, y));
        assert(spec_run_anchor(grid, belt).x == x && spec_run_anchor(grid, belt).y == y);
        i
    }
}

/// Belts of different prototypes or facings never share an anchor: the walk
/// back stops at a belt of another prototype, another facing or empty
/// ground, so each anchor tile holds a belt of its own run's kind.
pub proof fn lemma_runs_of_different_belts_never_share_an_anchor(
    grid: Seq<PlacedEntity>,
    b1: PlacedEntity,
    i1: int,
    k1: int,
    b2: PlacedEntity,
    i2: int,
    k2: int,
)
    requires
        run_length(grid, b1, k1),
        run_length(grid, b2, k2),
        entity_at(grid, b1.top_left.x as int, b1.top_left.y as int) == Some(i1),
        grid[i1].name@ == b1.name@,
        grid[i1].direction == b1.direction,
        entity_at(grid, b2.top_left.x as int, b2.top_left.y as int) == Some(i2),
        grid[i2].name@ == b2.name@,
        grid[i2].direction == b2.direction,
        b1.name@ != b2.name@ || b1.direction != b2.direction,
    ensures
        spec_run_anchor(grid, b1) != spec_run_anchor(grid, b2),
{
    let a1 = lemma_anchor_holds_the_run(grid, b1, i1, k1);
    let a2 = lemma_anchor_holds_the_run(grid, b2, i2, k2);
}

} // verus!
