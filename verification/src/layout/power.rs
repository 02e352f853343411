//! Pole placement: enough poles, each on free tiles, that every entity
//! needing power lies in some pole's supply area. A greedy cover from the
//! topmost-leftmost uncovered entity, so every pass makes progress and the
//! same grid always gets the same poles.
use vstd::prelude::*;

use crate::layout::error::LayoutError;
use crate::layout::grid::{proto_named, PlacedEntity};
use crate::layout::lane::GridPos;
use crate::layout::validate::{
    gaps_upto, is_powered, label, needs_power, overlaps_supply, powered, powers, spec_needs_power, supply_overlaps, unpowered,
};
use crate::layout::cell::opt_text;
use crate::prototype::{Direction, EntityCategory, EntityPrototype, Frac, Prototypes};
use crate::text::texts;

verus! {

/// A footprint of `size` at `pos` meets no entity of `grid`.
pub open spec fn spot_free(grid: Seq<PlacedEntity>, pos: (int, int), size: (u32, u32)) -> bool {
    forall|k: int|
        0 <= k < grid.len() ==> !(#[trigger] grid[k].top_left.x < pos.0 + size.0 && pos.0 < grid[k].top_left.x + grid[k].size.0
            && grid[k].top_left.y < pos.1 + size.1 && pos.1 < grid[k].top_left.y + grid[k].size.1)
}

/// Whether a footprint of `size` at `pos` is free.
fn spot_is_free(grid: &Vec<PlacedEntity>, pos: (i64, i64), size: (u32, u32)) -> (res: bool)
    requires
        -0x1_0000_0000 <= pos.0 <= 0x1_0000_0000,
        -0x1_0000_0000 <= pos.1 <= 0x1_0000_0000,
    ensures
        res == spot_free(grid@, (pos.0 as int, pos.1 as int), size),
{
    let mut k: usize = 0;
    while k < grid.len()
        invariant
            k <= grid@.len(),
            -0x1_0000_0000 <= pos.0 <= 0x1_0000_0000,
            -0x1_0000_0000 <= pos.1 <= 0x1_0000_0000,
            forall|j: int|
                0 <= j < k ==> !(#[trigger] grid@[j].top_left.x < pos.0 + size.0 && pos.0 < grid@[j].top_left.x + grid@[j].size.0
                    && grid@[j].top_left.y < pos.1 + size.1 && pos.1 < grid@[j].top_left.y + grid@[j].size.1),
        decreases grid.len() - k,
    {
        let e = &grid[k];
        let (ex, ey) = (e.top_left.x as i64, e.top_left.y as i64);
        if ex < pos.0 + size.0 as i64 && pos.0 < ex + e.size.0 as i64 && ey < pos.1 + size.1 as i64 && pos.1 < ey + e.size.1 as i64 {
            return false;
        }
        k = k + 1;
    }
    true
}

/// Positions of the entities of `grid` that need power and lack it, in order.
pub open spec fn unpowered_indices(grid: Seq<PlacedEntity>, ps: Seq<EntityPrototype>, n: int) -> Seq<int>
    decreases n,
{
    if n <= 0 || n > grid.len() {
        Seq::empty()
    } else if unpowered(grid, ps, grid[n - 1]) {
        unpowered_indices(grid, ps, n - 1).push(n - 1)
    } else {
        unpowered_indices(grid, ps, n - 1)
    }
}

proof fn lemma_unpowered_indices(grid: Seq<PlacedEntity>, ps: Seq<EntityPrototype>, n: int)
    requires
        0 <= n <= grid.len(),
    ensures
        forall|j: int| 0 <= j < unpowered_indices(grid, ps, n).len() ==> {
            let i = #[trigger] unpowered_indices(grid, ps, n)[j];
            0 <= i < n && unpowered(grid, ps, grid[i])
        },
        forall|i: int| 0 <= i < n && unpowered(grid, ps, #[trigger] grid[i]) ==> unpowered_indices(grid, ps, n).contains(i),
        forall|a: int, b: int| 0 <= a < b < unpowered_indices(grid, ps, n).len() ==> unpowered_indices(grid, ps, n)[a] < unpowered_indices(grid, ps, n)[b],
        unpowered_indices(grid, ps, n).len() <= n,
    decreases n,
{
    if n > 0 {
        lemma_unpowered_indices(grid, ps, n - 1);
        let prev = unpowered_indices(grid, ps, n - 1);
        if unpowered(grid, ps, grid[n - 1]) {
            assert forall|i: int| 0 <= i < n && unpowered(grid, ps, #[trigger] grid[i]) implies unpowered_indices(grid, ps, n).contains(i) by {
                if i < n - 1 {
                    let j = choose|j: int| 0 <= j < prev.len() && prev[j] == i;
                    assert(unpowered_indices(grid, ps, n)[j] == i);
                } else {
                    assert(unpowered_indices(grid, ps, n)[prev.len() as int] == i);
                }
            }
        }
    }
}

fn unpowered_list(grid: &Vec<PlacedEntity>, protos: &Prototypes) -> (res: Vec<usize>)
    ensures
        res@.map_values(|i: usize| i as int) == unpowered_indices(grid@, protos.spec_entries(), grid@.len() as int),
{
    let ghost ps = protos.spec_entries();
    let mut out: Vec<usize> = Vec::new();
    let mut i: usize = 0;
    while i < grid.len()
        invariant
            i <= grid@.len(),
            ps == protos.spec_entries(),
            out@.map_values(|i: usize| i as int) == unpowered_indices(grid@, ps, i as int),
        decreases grid.len() - i,
    {
        let ghost before = out@;
        let e = &grid[i];
        if needs_power(e.category) && !is_powered(grid, protos, e) {
            out.push(i);
            proof {
                assert(out@.map_values(|i: usize| i as int) =~= before.map_values(|i: usize| i as int).push(i as int));
            }
        }
        i = i + 1;
    }
    out
}

/// Entity `a` stands before entity `b` by row, then by column.
pub open spec fn reads_before(a: PlacedEntity, b: PlacedEntity) -> bool {
    a.top_left.y < b.top_left.y || (a.top_left.y == b.top_left.y && a.top_left.x < b.top_left.x)
}

/// The first unpowered entity by row, then column, then grid order.
pub open spec fn is_target(grid: Seq<PlacedEntity>, ps: Seq<EntityPrototype>, t: int) -> bool {
    &&& 0 <= t < grid.len()
    &&& unpowered(grid, ps, grid[t])
    &&& forall|i: int| 0 <= i < grid.len() && unpowered(grid, ps, #[trigger] grid[i]) ==> !reads_before(grid[i], grid[t]) && (
        grid[i].top_left == grid[t].top_left ==> t <= i)
}

/// The number of entities among `idx` that a pole of `size` at `pos`
/// reaching `d` would power.
pub open spec fn score_of(grid: Seq<PlacedEntity>, idx: Seq<int>, pos: (int, int), size: (u32, u32), d: Frac, n: int) -> int
    decreases n,
{
    if n <= 0 || n > idx.len() {
        0
    } else {
        score_of(grid, idx, pos, size, d, n - 1) + if supply_overlaps(pos.0, pos.1, size.0 as int, size.1 as int, d, grid[idx[n - 1]]) {
            1int
        } else {
            0int
        }
    }
}

/// `pos` may take a pole for `target`: inside the search window, free, and
/// close enough to power the target.
pub open spec fn candidate(grid: Seq<PlacedEntity>, target: PlacedEntity, pos: (int, int), size: (u32, u32), d: Frac, span: int) -> bool {
    &&& i32::MIN <= pos.0 <= i32::MAX && i32::MIN <= pos.1 <= i32::MAX
    &&& target.top_left.x - span <= pos.0 <= target.top_left.x + span
    &&& target.top_left.y - span <= pos.1 <= target.top_left.y + span
    &&& spot_free(grid, pos, size)
    &&& supply_overlaps(pos.0, pos.1, size.0 as int, size.1 as int, d, target)
}

/// The search window's half-width around a target: the pole's reach rounded
/// up, plus the larger side of the pole and of the target.
pub open spec fn window(d: Frac, size: (u32, u32), target: PlacedEntity) -> int {
    let reach = -((-d.num as int) / (d.den as int));
    reach + (if size.0 >= size.1 { size.0 as int } else { size.1 as int }) + (if target.size.0 >= target.size.1 {
        target.size.0 as int
    } else {
        target.size.1 as int
    })
}

/// `pos` is where the greedy pass puts the next pole: a candidate covering
/// the most unpowered entities, the first such by row, then column.
pub open spec fn best_spot(grid: Seq<PlacedEntity>, ps: Seq<EntityPrototype>, t: int, pos: (int, int), size: (u32, u32), d: Frac) -> bool {
    let idx = unpowered_indices(grid, ps, grid.len() as int);
    let span = window(d, size, grid[t]);
    &&& candidate(grid, grid[t], pos, size, d, span)
    &&& forall|q: (int, int)| #[trigger] candidate(grid, grid[t], q, size, d, span) ==> {
        let sq = score_of(grid, idx, q, size, d, idx.len() as int);
        let sp = score_of(grid, idx, pos, size, d, idx.len() as int);
        sq < sp || (sq == sp && !(q.1 < pos.1 || (q.1 == pos.1 && q.0 < pos.0)))
    }
}

/// Entity sizes a search window can be built around.
pub open spec fn sizes_bounded(grid: Seq<PlacedEntity>) -> bool {
    forall|k: int| 0 <= k < grid.len() ==> #[trigger] grid[k].size.0 <= 1_000_000 && grid[k].size.1 <= 1_000_000
}

/// The first unpowered entity by row, then column, then grid order.
fn pick_target(grid: &Vec<PlacedEntity>, uncovered: &Vec<usize>, Ghost(ps): Ghost<Seq<EntityPrototype>>) -> (res: usize)
    requires
        uncovered@.len() > 0,
        uncovered@.map_values(|i: usize| i as int) == unpowered_indices(grid@, ps, grid@.len() as int),
    ensures
        is_target(grid@, ps, res as int),
{
    proof {
        let idx = unpowered_indices(grid@, ps, grid@.len() as int);
        lemma_unpowered_indices(grid@, ps, grid@.len() as int);
        assert forall|a: int| 0 <= a < uncovered@.len() implies #[trigger] uncovered@[a] as int == idx[a] by {
            assert(uncovered@.map_values(|i: usize| i as int)[a] == uncovered@[a] as int);
        }
        assert forall|a: int, b: int| 0 <= a < b < uncovered@.len() implies uncovered@[a] < uncovered@[b] by {
            assert(uncovered@[a] as int == idx[a]);
            assert(uncovered@[b] as int == idx[b]);
        }
    }
    let mut best: usize = uncovered[0];
    let mut j: usize = 1;
    while j < uncovered.len()
        invariant
            1 <= j <= uncovered@.len(),
            uncovered@.map_values(|i: usize| i as int) == unpowered_indices(grid@, ps, grid@.len() as int),
            forall|a: int| 0 <= a < uncovered@.len() ==> {
                let i = #[trigger] uncovered@[a] as int;
                0 <= i < grid@.len() && unpowered(grid@, ps, grid@[i])
            },
            forall|a: int, b: int| 0 <= a < b < uncovered@.len() ==> uncovered@[a] < uncovered@[b],
            exists|a: int| 0 <= a < j && uncovered@[a] == best,
            forall|a: int| 0 <= a < j ==> {
                let i = #[trigger] uncovered@[a] as int;
                !reads_before(grid@[i], grid@[best as int]) && (grid@[i].top_left == grid@[best as int].top_left ==> best <= i)
            },
        decreases uncovered.len() - j,
    {
        let i = uncovered[j];
        let (a, b) = (&grid[i].top_left, &grid[best].top_left);
        if a.y < b.y || (a.y == b.y && a.x < b.x) {
            best = i;
        }
        j = j + 1;
    }
    proof {
        assert forall|i: int| 0 <= i < grid@.len() && unpowered(grid@, ps, #[trigger] grid@[i]) implies !reads_before(grid@[i], grid@[best as int])
            && (grid@[i].top_left == grid@[best as int].top_left ==> best <= i) by {
            let idx = unpowered_indices(grid@, ps, grid@.len() as int);
            assert(idx.contains(i));
            let a = choose|a: int| 0 <= a < idx.len() && idx[a] == i;
            assert(uncovered@[a] as int == i);
        }
    }
    best
}

/// How many of the entities at `uncovered` a pole of `size` at `pos`
/// reaching `d` would power.
fn score(grid: &Vec<PlacedEntity>, uncovered: &Vec<usize>, pos: (i64, i64), size: (u32, u32), d: Frac) -> (res: usize)
    requires
        d.wf(),
        -0x1_0000_0000 <= pos.0 <= 0x1_0000_0000,
        -0x1_0000_0000 <= pos.1 <= 0x1_0000_0000,
        forall|a: int| 0 <= a < uncovered@.len() ==> #[trigger] uncovered@[a] < grid@.len(),
    ensures
        res == score_of(grid@, uncovered@.map_values(|i: usize| i as int), (pos.0 as int, pos.1 as int), size, d, uncovered@.len() as int),
{
    let ghost idx = uncovered@.map_values(|i: usize| i as int);
    let mut n: usize = 0;
    let mut a: usize = 0;
    while a < uncovered.len()
        invariant
            a <= uncovered@.len(),
            d.wf(),
            -0x1_0000_0000 <= pos.0 <= 0x1_0000_0000,
            -0x1_0000_0000 <= pos.1 <= 0x1_0000_0000,
            idx == uncovered@.map_values(|i: usize| i as int),
            forall|a: int| 0 <= a < uncovered@.len() ==> #[trigger] uncovered@[a] < grid@.len(),
            n <= a,
            n == score_of(grid@, idx, (pos.0 as int, pos.1 as int), size, d, a as int),
        decreases uncovered.len() - a,
    {
        if overlaps_supply(pos.0, pos.1, size.0, size.1, d, &grid[uncovered[a]]) {
            n = n + 1;
        }
        a = a + 1;
    }
    n
}

/// `q` was scanned before row `y`, column `x`.
pub open spec fn scanned_before(q: (int, int), x: int, y: int) -> bool {
    q.1 < y || (q.1 == y && q.0 < x)
}

/// The greedy pole spot for target `t`, if any candidate exists: the window
/// is scanned by row, then column, keeping the first best score.
fn best_position(
    grid: &Vec<PlacedEntity>,
    uncovered: &Vec<usize>,
    t: usize,
    size: (u32, u32),
    d: Frac,
    span: i64,
    Ghost(ps): Ghost<Seq<EntityPrototype>>,
) -> (res: Option<(i64, i64)>)
    requires
        d.wf(),
        t < grid@.len(),
        -0x7fff_ffff_ffff_ffff <= span <= 4_000_000,
        span == window(d, size, grid@[t as int]),
        uncovered@.map_values(|i: usize| i as int) == unpowered_indices(grid@, ps, grid@.len() as int),
        forall|a: int| 0 <= a < uncovered@.len() ==> #[trigger] uncovered@[a] < grid@.len(),
    ensures
        match res {
            Some(p) => best_spot(grid@, ps, t as int, (p.0 as int, p.1 as int), size, d),
            None => forall|q: (int, int)| !#[trigger] candidate(grid@, grid@[t as int], q, size, d, span as int),
        },
{
    let ghost idx = uncovered@.map_values(|i: usize| i as int);
    let ghost target = grid@[t as int];
    if span < 0 {
        return None;
    }
    let tx = grid[t].top_left.x as i64;
    let ty = grid[t].top_left.y as i64;
    let mut best: Option<((i64, i64), usize)> = None;
    let mut dy: i64 = -span;
    while dy <= span
        invariant
            d.wf(),
            t < grid@.len(),
            target == grid@[t as int],
            0 <= span <= 4_000_000,
            span == window(d, size, target),
            idx == uncovered@.map_values(|i: usize| i as int),
            idx == unpowered_indices(grid@, ps, grid@.len() as int),
            forall|a: int| 0 <= a < uncovered@.len() ==> #[trigger] uncovered@[a] < grid@.len(),
            tx == target.top_left.x,
            ty == target.top_left.y,
            -span <= dy <= span + 1,
            match best {
                Some((p, sc)) => candidate(grid@, target, (p.0 as int, p.1 as int), size, d, span as int)
                    && sc == score_of(grid@, idx, (p.0 as int, p.1 as int), size, d, idx.len() as int)
                    && scanned_before((p.0 as int, p.1 as int), tx - span, ty + dy),
                None => true,
            },
            forall|q: (int, int)| #[trigger] candidate(grid@, target, q, size, d, span as int) && scanned_before(q, tx - span, ty + dy) ==> match best {
                Some((p, sc)) => {
                    let sq = score_of(grid@, idx, q, size, d, idx.len() as int);
                    sq < sc || (sq == sc && !scanned_before(q, p.0 as int, p.1 as int))
                },
                None => false,
            },
        decreases span + 1 - dy,
    {
        let mut dx: i64 = -span;
        while dx <= span
            invariant
                d.wf(),
                t < grid@.len(),
                target == grid@[t as int],
                0 <= span <= 4_000_000,
                span == window(d, size, target),
                idx == uncovered@.map_values(|i: usize| i as int),
                idx == unpowered_indices(grid@, ps, grid@.len() as int),
                forall|a: int| 0 <= a < uncovered@.len() ==> #[trigger] uncovered@[a] < grid@.len(),
                tx == target.top_left.x,
                ty == target.top_left.y,
                -span <= dy <= span,
                -span <= dx <= span + 1,
                match best {
                    Some((p, sc)) => candidate(grid@, target, (p.0 as int, p.1 as int), size, d, span as int)
                        && sc == score_of(grid@, idx, (p.0 as int, p.1 as int), size, d, idx.len() as int)
                        && scanned_before((p.0 as int, p.1 as int), tx + dx, ty + dy),
                    None => true,
                },
                forall|q: (int, int)| #[trigger] candidate(grid@, target, q, size, d, span as int) && scanned_before(q, tx + dx, ty + dy) ==> match best {
                    Some((p, sc)) => {
                        let sq = score_of(grid@, idx, q, size, d, idx.len() as int);
                        sq < sc || (sq == sc && !scanned_before(q, p.0 as int, p.1 as int))
                    },
                    None => false,
                },
            decreases span + 1 - dx,
        {
            let pos = (tx + dx, ty + dy);
            let in_range = i32::MIN as i64 <= pos.0 && pos.0 <= i32::MAX as i64 && i32::MIN as i64 <= pos.1 && pos.1 <= i32::MAX as i64;
            let ok = in_range && spot_is_free(grid, pos, size) && overlaps_supply(pos.0, pos.1, size.0, size.1, d, &grid[t]);
            proof {
                assert(ok == candidate(grid@, target, (pos.0 as int, pos.1 as int), size, d, span as int));
            }
            if ok {
                let sc = score(grid, uncovered, pos, size, d);
                let better = match best {
                    None => true,
                    Some((_, bs)) => sc > bs,
                };
                if better {
                    best = Some((pos, sc));
                }
            }
            proof {
                assert forall|q: (int, int)| #[trigger] candidate(grid@, target, q, size, d, span as int) && scanned_before(q, tx + dx + 1, ty + dy) implies match best {
                    Some((p, sc)) => {
                        let sq = score_of(grid@, idx, q, size, d, idx.len() as int);
                        sq < sc || (sq == sc && !scanned_before(q, p.0 as int, p.1 as int))
                    },
                    None => false,
                } by {
                    if q == (pos.0 as int, pos.1 as int) {
                    } else {
                        assert(scanned_before(q, tx + dx, ty + dy));
                    }
                }
            }
            dx = dx + 1;
        }
        proof {
            assert forall|q: (int, int)| #[trigger] candidate(grid@, target, q, size, d, span as int) && scanned_before(q, tx - span, ty + dy + 1) implies match best {
                Some((p, sc)) => {
                    let sq = score_of(grid@, idx, q, size, d, idx.len() as int);
                    sq < sc || (sq == sc && !scanned_before(q, p.0 as int, p.1 as int))
                },
                None => false,
            } by {
                assert(scanned_before(q, tx + span + 1, ty + dy));
            }
        }
        dy = dy + 1;
    }
    match best {
        Some((p, _)) => {
            proof {
                assert forall|q: (int, int)| #[trigger] candidate(grid@, target, q, size, d, span as int) implies {
                    let sq = score_of(grid@, idx, q, size, d, idx.len() as int);
                    let sp = score_of(grid@, idx, (p.0 as int, p.1 as int), size, d, idx.len() as int);
                    sq < sp || (sq == sp && !(q.1 < p.1 || (q.1 == p.1 && q.0 < p.0)))
                } by {
                    assert(scanned_before(q, tx - span, ty + dy));
                }
            }
            Some(p)
        },
        None => {
            proof {
                assert forall|q: (int, int)| !#[trigger] candidate(grid@, target, q, size, d, span as int) by {
                    if candidate(grid@, target, q, size, d, span as int) {
                        assert(scanned_before(q, tx - span, ty + dy));
                    }
                }
            }
            None
        },
    }
}

/// A pole entity of prototype `pole` with its top-left at `pos`.
pub open spec fn is_pole_at(e: PlacedEntity, pole: EntityPrototype, pos: (int, int)) -> bool {
    &&& e.name@ == pole.name@
    &&& e.category == EntityCategory::ElectricPole
    &&& e.top_left.x == pos.0 && e.top_left.y == pos.1
    &&& e.size == pole.spec_effective_size(Direction::North)
    &&& e.direction == Direction::North
    &&& e.recipe is None
    &&& e.filters@.len() == 0
}

/// Each entity of `grid` from position `from` on is a pole the greedy pass
/// put where it would: on the best spot for the then first unpowered entity.
pub open spec fn greedy_poles(grid: Seq<PlacedEntity>, ps: Seq<EntityPrototype>, pole: EntityPrototype, d: Frac, from: int) -> bool {
    forall|k: int| from <= k < grid.len() ==> #[trigger] greedy_at(grid, ps, pole, d, k)
}

/// Entity `k` is a pole on the best spot for the first unpowered entity of
/// the grid before it.
pub open spec fn greedy_at(grid: Seq<PlacedEntity>, ps: Seq<EntityPrototype>, pole: EntityPrototype, d: Frac, k: int) -> bool {
    let pos = (grid[k].top_left.x as int, grid[k].top_left.y as int);
    is_pole_at(grid[k], pole, pos) && exists|t: int|
        #[trigger] is_target(grid.subrange(0, k), ps, t) && best_spot(grid.subrange(0, k), ps, t, pos, pole.spec_effective_size(Direction::North), d)
}

proof fn lemma_powered_stays(grid: Seq<PlacedEntity>, ps: Seq<EntityPrototype>, p: PlacedEntity, e: PlacedEntity)
    requires
        powered(grid, ps, e),
    ensures
        powered(grid.push(p), ps, e),
{
    let k = choose|k: int| 0 <= k < grid.len() && #[trigger] powers(grid, ps, k, e);
    assert(grid.push(p)[k] == grid[k]);
    assert(powers(grid.push(p), ps, k, e));
}

/// Placing a pole that powers the first unpowered entity leaves fewer
/// unpowered entities.
proof fn lemma_fewer_unpowered(grid: Seq<PlacedEntity>, ps: Seq<EntityPrototype>, p: PlacedEntity, t: int)
    requires
        0 <= t < grid.len(),
        unpowered(grid, ps, grid[t]),
        powers(grid.push(p), ps, grid.len() as int, grid[t]),
        !spec_needs_power(p.category),
    ensures
        unpowered_indices(grid.push(p), ps, grid.len() + 1int).len() < unpowered_indices(grid, ps, grid.len() as int).len(),
{
    let g2 = grid.push(p);
    let a = unpowered_indices(grid, ps, grid.len() as int);
    let b = unpowered_indices(g2, ps, g2.len() as int);
    lemma_unpowered_indices(grid, ps, grid.len() as int);
    lemma_unpowered_indices(g2, ps, g2.len() as int);
    assert(a.no_duplicates()) by {
        assert forall|i: int, j: int| 0 <= i < a.len() && 0 <= j < a.len() && i != j implies a[i] != a[j] by {
            if i < j {
                assert(a[i] < a[j]);
            } else {
                assert(a[j] < a[i]);
            }
        }
    }
    assert(b.no_duplicates()) by {
        assert forall|i: int, j: int| 0 <= i < b.len() && 0 <= j < b.len() && i != j implies b[i] != b[j] by {
            if i < j {
                assert(b[i] < b[j]);
            } else {
                assert(b[j] < b[i]);
            }
        }
    }
    a.unique_seq_to_set();
    b.unique_seq_to_set();
    assert(powered(g2, ps, grid[t]));
    assert forall|x: int| b.to_set().contains(x) implies a.to_set().remove(t).contains(x) by {
        let j = choose|j: int| 0 <= j < b.len() && b[j] == x;
        assert(0 <= x < g2.len() && unpowered(g2, ps, g2[x]));
        if x == grid.len() {
            assert(g2[x] == p);
        } else {
            assert(g2[x] == grid[x]);
            if powered(grid, ps, grid[x]) {
                lemma_powered_stays(grid, ps, p, grid[x]);
            }
            assert(a.contains(x));
            assert(x != t);
        }
    }
    assert(a.contains(t));
    vstd::set_lib::lemma_len_subset(b.to_set(), a.to_set().remove(t));
}

/// Once nothing on the grid lacks power, no coverage gap is reported: the
/// check after pole placement finds nothing left to cover.
pub proof fn lemma_no_gaps_once_powered(grid: Seq<PlacedEntity>, ps: Seq<EntityPrototype>, n: int)
    requires
        forall|i: int| 0 <= i < grid.len() ==> !unpowered(grid, ps, #[trigger] grid[i]),
    ensures
        gaps_upto(grid, ps, n).len() == 0,
    decreases n,
{
    if 0 < n <= grid.len() {
        lemma_no_gaps_once_powered(grid, ps, n - 1);
    }
}

/// Pole placement on a grid where nothing lacks power adds nothing: every
/// pole the greedy pass puts down is aimed at some unpowered entity.
pub proof fn lemma_covered_grid_gets_no_poles(
    before: Seq<PlacedEntity>,
    after: Seq<PlacedEntity>,
    ps: Seq<EntityPrototype>,
    pole: EntityPrototype,
    d: Frac,
)
    requires
        forall|i: int| 0 <= i < before.len() ==> !unpowered(before, ps, #[trigger] before[i]),
        after.len() >= before.len(),
        after.subrange(0, before.len() as int) == before,
        greedy_poles(after, ps, pole, d, before.len() as int),
    ensures
        after == before,
{
    if after.len() > before.len() {
        let k = before.len() as int;
        assert(greedy_at(after, ps, pole, d, k));
        let t = choose|t: int|
            #[trigger] is_target(after.subrange(0, k), ps, t) && best_spot(
                after.subrange(0, k),
                ps,
                t,
                (after[k].top_left.x as int, after[k].top_left.y as int),
                pole.spec_effective_size(Direction::North),
                d,
            );
        assert(after.subrange(0, k) == before);
        assert(unpowered(before, ps, before[t]));
        assert(false);
    }
    assert(after =~= before);
}

/// What pole placement leaves behind, from `start`: the grid kept as it
/// was, then the poles the greedy pass put down, one by one; on success
/// nothing lacks power, and a refusal names the pole and the label of the
/// first unpowered entity, which no free spot in its window reaches.
pub open spec fn poles_placed(
    start: Seq<PlacedEntity>,
    ps: Seq<EntityPrototype>,
    pole: EntityPrototype,
    after: Seq<PlacedEntity>,
    res: Result<(), LayoutError>,
) -> bool {
    let d = pole.supply_area_distance->0;
    let size = pole.spec_effective_size(Direction::North);
    &&& after.len() >= start.len()
    &&& after.subrange(0, start.len() as int) == start
    &&& greedy_poles(after, ps, pole, d, start.len() as int)
    &&& res is Ok ==> forall|i: int| 0 <= i < after.len() ==> !unpowered(after, ps, #[trigger] after[i])
    &&& res is Err ==> (res matches Err(LayoutError::NoRoomForPole { step, pole: name }) && name@ == pole.name@ && exists|t: int|
        #[trigger] is_target(after, ps, t) && step@ == label(after[t]) && forall|q: (int, int)|
            !#[trigger] candidate(after, after[t], q, size, d, window(d, size, after[t])))
}

/// Places poles until every entity that needs power lies in some pole's
/// supply area. Each pass takes the topmost-leftmost unpowered entity,
/// searches a window around it (the pole's reach plus both footprints) for
/// the free spot covering the most unpowered entities, the first such by row
/// then column, and places a pole there. Refused, naming the walled-in
/// entity's recipe, when no free spot in the window reaches it.
pub fn place_poles(grid: &mut Vec<PlacedEntity>, protos: &Prototypes, pole: &EntityPrototype) -> (res: Result<(), LayoutError>)
    requires
        pole.wf(),
        pole.category == EntityCategory::ElectricPole,
        pole.supply_area_distance matches Some(d) && d.spec_floor() <= 1_000_000,
        proto_named(protos.spec_entries(), pole.name@) == Some(*pole),
        sizes_bounded(old(grid)@),
    ensures
        poles_placed(old(grid)@, protos.spec_entries(), *pole, final(grid)@, res),
{
    let ghost ps = protos.spec_entries();
    let ghost start = grid@;
    assert(start == old(grid)@);
    let size = pole.effective_size(Direction::North);
    let d = match pole.supply_area_distance {
        Some(d) => d,
        None => return Ok(()),
    };
    proof {
        assert((-d.num as int) / (d.den as int) >= -0x7fff_ffff_ffff_ffff) by (nonlinear_arith)
            requires
                -d.num >= -0x7fff_ffff_ffff_ffff,
                d.den >= 1,
        ;
        assert((-d.num as int) / (d.den as int) <= 0x7fff_ffff_ffff_ffff) by (nonlinear_arith)
            requires
                -d.num <= 0x7fff_ffff_ffff_ffff,
                d.den >= 1,
        ;
    }
    let reach: i64 = -d.neg().floor();
    proof {
        assert(reach == -((-d.num as int) / (d.den as int)));
        assert(reach <= 1_000_001) by (nonlinear_arith)
            requires
                reach == -((-d.num as int) / (d.den as int)),
                d.den > 0,
                (d.num as int) / (d.den as int) <= 1_000_000,
        ;
    }
    let ghost n0 = grid@.len() as int;
    loop
        invariant
            pole.wf(),
            pole.category == EntityCategory::ElectricPole,
            pole.supply_area_distance == Some(d),
            d.wf(),
            d.spec_floor() <= 1_000_000,
            reach == -((-d.num as int) / (d.den as int)),
            -0x7fff_ffff_ffff_ffff <= reach <= 1_000_001,
            size == pole.spec_effective_size(Direction::North),
            ps == protos.spec_entries(),
            proto_named(ps, pole.name@) == Some(*pole),
            n0 == start.len(),
            start == old(grid)@,
            grid@.len() >= n0,
            grid@.subrange(0, n0) == start,
            sizes_bounded(grid@),
            greedy_poles(grid@, ps, *pole, d, n0),
        decreases unpowered_indices(grid@, ps, grid@.len() as int).len(),
    {
        let uncovered = unpowered_list(grid, protos);
        if uncovered.len() == 0 {
            proof {
                lemma_unpowered_indices(grid@, ps, grid@.len() as int);
                assert forall|i: int| 0 <= i < grid@.len() implies !unpowered(grid@, ps, #[trigger] grid@[i]) by {
                    if unpowered(grid@, ps, grid@[i]) {
                        assert(unpowered_indices(grid@, ps, grid@.len() as int).contains(i));
                    }
                }
            }
            return Ok(());
        }
        proof {
            lemma_unpowered_indices(grid@, ps, grid@.len() as int);
            assert forall|a: int| 0 <= a < uncovered@.len() implies #[trigger] uncovered@[a] < grid@.len() by {
                assert(uncovered@.map_values(|i: usize| i as int)[a] == uncovered@[a] as int);
            }
        }
        let t = pick_target(grid, &uncovered, Ghost(ps));
        let target = &grid[t];
        let pole_side: i64 = if size.0 >= size.1 { size.0 as i64 } else { size.1 as i64 };
        let target_side: i64 = if target.size.0 >= target.size.1 { target.size.0 as i64 } else { target.size.1 as i64 };
        proof {
            assert(target.size.0 <= 1_000_000 && target.size.1 <= 1_000_000);
        }
        let span: i64 = reach + pole_side + target_side;
        proof {
            assert(span == window(d, size, grid@[t as int]));
        }
        match best_position(grid, &uncovered, t, size, d, span, Ghost(ps)) {
            None => {
                return Err(LayoutError::NoRoomForPole { step: crate::layout::validate::label_of(&grid[t]), pole: pole.name.clone() });
            },
            Some(pos) => {
                let e = PlacedEntity {
                    name: pole.name.clone(),
                    category: pole.category,
                    top_left: GridPos { x: pos.0 as i32, y: pos.1 as i32 },
                    size,
                    direction: Direction::North,
                    recipe: None,
                    filters: Vec::new(),
                };
                let ghost before = grid@;
                let ghost pp = (pos.0 as int, pos.1 as int);
                proof {
                    assert(is_pole_at(e, *pole, pp));
                    assert(e.filters@.len() == 0);
                }
                grid.push(e);
                proof {
                    assert(grid@.subrange(0, before.len() as int) =~= before);
                    assert(grid@.subrange(0, n0) =~= start) by {
                        assert(before.subrange(0, n0) == start);
                    }
                    assert(powers(grid@, ps, before.len() as int, before[t as int]));
                    lemma_fewer_unpowered(before, ps, e, t as int);
                    assert forall|k: int| n0 <= k < grid@.len() implies #[trigger] greedy_at(grid@, ps, *pole, d, k) by {
                        if k < before.len() {
                            assert(grid@.subrange(0, k) =~= before.subrange(0, k));
                            assert(grid@[k] == before[k]);
                            assert(greedy_at(before, ps, *pole, d, k));
                        } else {
                            assert(grid@.subrange(0, k) =~= before);
                            assert(is_target(before, ps, t as int));
                            assert(best_spot(before, ps, t as int, pp, size, d));
                        }
                    }
                    assert forall|k: int| 0 <= k < grid@.len() implies #[trigger] grid@[k].size.0 <= 1_000_000 && grid@[k].size.1 <= 1_000_000 by {
                        if k < before.len() {
                            assert(grid@[k] == before[k]);
                        }
                    }
                }
            },
        }
    }
}

/// What every spec of pole placement reads of an entity: its name, its
/// category, its corner and its footprint.
pub open spec fn same_shape(a: PlacedEntity, b: PlacedEntity) -> bool {
    &&& a.name@ == b.name@
    &&& a.category == b.category
    &&& a.top_left == b.top_left
    &&& a.size == b.size
}

/// Two entities that read the same in every field.
pub open spec fn same_placement(a: PlacedEntity, b: PlacedEntity) -> bool {
    &&& same_shape(a, b)
    &&& a.direction == b.direction
    &&& opt_text(a.recipe) == opt_text(b.recipe)
    &&& texts(a.filters@) == texts(b.filters@)
}

/// Two grids whose entities, position by position, have the same shape.
pub open spec fn alike(g1: Seq<PlacedEntity>, g2: Seq<PlacedEntity>) -> bool {
    &&& g1.len() == g2.len()
    &&& forall|i: int| 0 <= i < g1.len() ==> same_shape(#[trigger] g1[i], g2[i])
}

proof fn lemma_unpowered_alike(g1: Seq<PlacedEntity>, g2: Seq<PlacedEntity>, ps: Seq<EntityPrototype>, e1: PlacedEntity, e2: PlacedEntity)
    requires
        alike(g1, g2),
        same_shape(e1, e2),
    ensures
        unpowered(g1, ps, e1) == unpowered(g2, ps, e2),
{
    assert forall|k: int| 0 <= k < g1.len() implies #[trigger] powers(g1, ps, k, e1) == powers(g2, ps, k, e2) by {
        assert(same_shape(g1[k], g2[k]));
    }
    if powered(g1, ps, e1) {
        let k = choose|k: int| 0 <= k < g1.len() && #[trigger] powers(g1, ps, k, e1);
        assert(powers(g2, ps, k, e2));
    }
    if powered(g2, ps, e2) {
        let k = choose|k: int| 0 <= k < g2.len() && #[trigger] powers(g2, ps, k, e2);
        assert(powers(g1, ps, k, e1));
    }
}

proof fn lemma_unpowered_indices_alike(g1: Seq<PlacedEntity>, g2: Seq<PlacedEntity>, ps: Seq<EntityPrototype>, n: int)
    requires
        alike(g1, g2),
    ensures
        unpowered_indices(g1, ps, n) == unpowered_indices(g2, ps, n),
    decreases n,
{
    if 0 < n <= g1.len() {
        lemma_unpowered_indices_alike(g1, g2, ps, n - 1);
        assert(same_shape(g1[n - 1], g2[n - 1]));
        lemma_unpowered_alike(g1, g2, ps, g1[n - 1], g2[n - 1]);
    }
}

proof fn lemma_score_alike(
    g1: Seq<PlacedEntity>,
    g2: Seq<PlacedEntity>,
    idx: Seq<int>,
    pos: (int, int),
    size: (u32, u32),
    d: Frac,
    n: int,
)
    requires
        alike(g1, g2),
        forall|j: int| 0 <= j < idx.len() ==> 0 <= #[trigger] idx[j] < g1.len(),
    ensures
        score_of(g1, idx, pos, size, d, n) == score_of(g2, idx, pos, size, d, n),
    decreases n,
{
    if 0 < n <= idx.len() {
        lemma_score_alike(g1, g2, idx, pos, size, d, n - 1);
        assert(0 <= idx[n - 1] < g1.len());
        assert(same_shape(g1[idx[n - 1]], g2[idx[n - 1]]));
    }
}

/// On alike grids the same entity is the target and the same spots are best.
proof fn lemma_choice_alike(
    g1: Seq<PlacedEntity>,
    g2: Seq<PlacedEntity>,
    ps: Seq<EntityPrototype>,
    t: int,
    pos: (int, int),
    size: (u32, u32),
    d: Frac,
)
    requires
        alike(g1, g2),
    ensures
        is_target(g1, ps, t) == is_target(g2, ps, t),
        0 <= t < g1.len() ==> forall|q: (int, int)|
            #[trigger] candidate(g1, g1[t], q, size, d, window(d, size, g1[t])) == candidate(
                g2,
                g2[t],
                q,
                size,
                d,
                window(d, size, g2[t]),
            ),
        0 <= t < g1.len() ==> best_spot(g1, ps, t, pos, size, d) == best_spot(g2, ps, t, pos, size, d),
{
    assert forall|i: int| 0 <= i < g1.len() implies #[trigger] unpowered(g1, ps, g1[i]) == unpowered(g2, ps, g2[i]) && same_shape(
        g1[i],
        g2[i],
    ) by {
        assert(same_shape(g1[i], g2[i]));
        lemma_unpowered_alike(g1, g2, ps, g1[i], g2[i]);
    }
    if 0 <= t < g1.len() {
        assert(same_shape(g1[t], g2[t]));
        assert(is_target(g1, ps, t) ==> is_target(g2, ps, t)) by {
            if is_target(g1, ps, t) {
                assert forall|i: int| 0 <= i < g2.len() && unpowered(g2, ps, #[trigger] g2[i]) implies !reads_before(g2[i], g2[t]) && (
                g2[i].top_left == g2[t].top_left ==> t <= i) by {
                    assert(unpowered(g1, ps, g1[i]));
                }
            }
        }
        assert(is_target(g2, ps, t) ==> is_target(g1, ps, t)) by {
            if is_target(g2, ps, t) {
                assert forall|i: int| 0 <= i < g1.len() && unpowered(g1, ps, #[trigger] g1[i]) implies !reads_before(g1[i], g1[t]) && (
                g1[i].top_left == g1[t].top_left ==> t <= i) by {
                    assert(unpowered(g2, ps, g2[i]));
                }
            }
        }
        let idx = unpowered_indices(g1, ps, g1.len() as int);
        lemma_unpowered_indices_alike(g1, g2, ps, g1.len() as int);
        lemma_unpowered_indices(g1, ps, g1.len() as int);
        let span = window(d, size, g1[t]);
        assert(span == window(d, size, g2[t]));
        assert forall|q: (int, int)| #[trigger] candidate(g1, g1[t], q, size, d, span) == candidate(g2, g2[t], q, size, d, span) by {
            if spot_free(g1, q, size) {
                assert forall|k: int| 0 <= k < g2.len() implies !(#[trigger] g2[k].top_left.x < q.0 + size.0 && q.0 < g2[k].top_left.x
                    + g2[k].size.0 && g2[k].top_left.y < q.1 + size.1 && q.1 < g2[k].top_left.y + g2[k].size.1) by {
                    assert(same_shape(g1[k], g2[k]));
                    assert(!(g1[k].top_left.x < q.0 + size.0 && q.0 < g1[k].top_left.x + g1[k].size.0 && g1[k].top_left.y < q.1
                        + size.1 && q.1 < g1[k].top_left.y + g1[k].size.1));
                }
            }
            if spot_free(g2, q, size) {
                assert forall|k: int| 0 <= k < g1.len() implies !(#[trigger] g1[k].top_left.x < q.0 + size.0 && q.0 < g1[k].top_left.x
                    + g1[k].size.0 && g1[k].top_left.y < q.1 + size.1 && q.1 < g1[k].top_left.y + g1[k].size.1) by {
                    assert(same_shape(g1[k], g2[k]));
                    assert(!(g2[k].top_left.x < q.0 + size.0 && q.0 < g2[k].top_left.x + g2[k].size.0 && g2[k].top_left.y < q.1
                        + size.1 && q.1 < g2[k].top_left.y + g2[k].size.1));
                }
            }
        }
        assert forall|q: (int, int)| #[trigger] score_of(g1, idx, q, size, d, idx.len() as int) == score_of(g2, idx, q, size, d, idx.len() as int) by {
            assert forall|j: int| 0 <= j < idx.len() implies 0 <= #[trigger] idx[j] < g1.len() by {
            }
            lemma_score_alike(g1, g2, idx, q, size, d, idx.len() as int);
        }
        assert(best_spot(g1, ps, t, pos, size, d) == best_spot(g2, ps, t, pos, size, d)) by {
            if best_spot(g1, ps, t, pos, size, d) {
                assert forall|q: (int, int)| #[trigger] candidate(g2, g2[t], q, size, d, span) implies {
                    let sq = score_of(g2, idx, q, size, d, idx.len() as int);
                    let sp = score_of(g2, idx, pos, size, d, idx.len() as int);
                    sq < sp || (sq == sp && !(q.1 < pos.1 || (q.1 == pos.1 && q.0 < pos.0)))
                } by {
                    assert(candidate(g1, g1[t], q, size, d, span));
                    assert(score_of(g1, idx, q, size, d, idx.len() as int) == score_of(g2, idx, q, size, d, idx.len() as int));
                    assert(score_of(g1, idx, pos, size, d, idx.len() as int) == score_of(g2, idx, pos, size, d, idx.len() as int));
                }
                assert(candidate(g1, g1[t], pos, size, d, span));
            }
            if best_spot(g2, ps, t, pos, size, d) {
                assert forall|q: (int, int)| #[trigger] candidate(g1, g1[t], q, size, d, span) implies {
                    let sq = score_of(g1, idx, q, size, d, idx.len() as int);
                    let sp = score_of(g1, idx, pos, size, d, idx.len() as int);
                    sq < sp || (sq == sp && !(q.1 < pos.1 || (q.1 == pos.1 && q.0 < pos.0)))
                } by {
                    assert(candidate(g2, g2[t], q, size, d, span));
                    assert(score_of(g1, idx, q, size, d, idx.len() as int) == score_of(g2, idx, q, size, d, idx.len() as int));
                    assert(score_of(g1, idx, pos, size, d, idx.len() as int) == score_of(g2, idx, pos, size, d, idx.len() as int));
                }
                assert(candidate(g2, g2[t], pos, size, d, span));
            }
        }
    }
}

/// The target is one entity, and the best spot one spot.
proof fn lemma_choice_unique(
    g: Seq<PlacedEntity>,
    ps: Seq<EntityPrototype>,
    t1: int,
    t2: int,
    p1: (int, int),
    p2: (int, int),
    size: (u32, u32),
    d: Frac,
)
    requires
        is_target(g, ps, t1),
        is_target(g, ps, t2),
    ensures
        t1 == t2,
        best_spot(g, ps, t1, p1, size, d) && best_spot(g, ps, t1, p2, size, d) ==> p1 == p2,
{
    assert(unpowered(g, ps, g[t1]) && unpowered(g, ps, g[t2]));
    if best_spot(g, ps, t1, p1, size, d) && best_spot(g, ps, t1, p2, size, d) {
        let span = window(d, size, g[t1]);
        assert(candidate(g, g[t1], p1, size, d, span));
        assert(candidate(g, g[t1], p2, size, d, span));
    }
}

/// Two greedy runs from one grid put down poles of the same shapes, pole
/// for pole, as far as both go.
proof fn lemma_greedy_alike(
    g1: Seq<PlacedEntity>,
    g2: Seq<PlacedEntity>,
    ps: Seq<EntityPrototype>,
    pole: EntityPrototype,
    d: Frac,
    n: int,
    m: int,
)
    requires
        0 <= n <= m <= g1.len(),
        m <= g2.len(),
        g1.subrange(0, n) == g2.subrange(0, n),
        greedy_poles(g1, ps, pole, d, n),
        greedy_poles(g2, ps, pole, d, n),
    ensures
        alike(g1.subrange(0, m), g2.subrange(0, m)),
    decreases m - n,
{
    if m == n {
        assert forall|i: int| 0 <= i < m implies same_shape(#[trigger] g1.subrange(0, m)[i], g2.subrange(0, m)[i]) by {
            assert(g1.subrange(0, n)[i] == g2.subrange(0, n)[i]);
        }
    } else {
        let k = m - 1;
        lemma_greedy_alike(g1, g2, ps, pole, d, n, k);
        let size = pole.spec_effective_size(Direction::North);
        let a = g1.subrange(0, k);
        let b = g2.subrange(0, k);
        assert(greedy_at(g1, ps, pole, d, k));
        assert(greedy_at(g2, ps, pole, d, k));
        let p1 = (g1[k].top_left.x as int, g1[k].top_left.y as int);
        let p2 = (g2[k].top_left.x as int, g2[k].top_left.y as int);
        let t1 = choose|t: int| #[trigger] is_target(a, ps, t) && best_spot(a, ps, t, p1, size, d);
        let t2 = choose|t: int| #[trigger] is_target(b, ps, t) && best_spot(b, ps, t, p2, size, d);
        lemma_choice_alike(a, b, ps, t2, p2, size, d);
        lemma_choice_unique(a, ps, t1, t2, p1, p2, size, d);
        assert(p1 == p2);
        assert(same_shape(g1[k], g2[k]));
        assert forall|i: int| 0 <= i < m implies same_shape(#[trigger] g1.subrange(0, m)[i], g2.subrange(0, m)[i]) by {
            if i < k {
                assert(g1.subrange(0, m)[i] == a[i]);
                assert(g2.subrange(0, m)[i] == b[i]);
                assert(same_shape(a[i], b[i]));
            }
        }
    }
}

/// A run that stops, done or refused, stops no earlier than another run
/// from the same grid.
proof fn lemma_run_not_shorter(
    start: Seq<PlacedEntity>,
    ps: Seq<EntityPrototype>,
    pole: EntityPrototype,
    g1: Seq<PlacedEntity>,
    r1: Result<(), LayoutError>,
    g2: Seq<PlacedEntity>,
    r2: Result<(), LayoutError>,
)
    requires
        poles_placed(start, ps, pole, g1, r1),
        poles_placed(start, ps, pole, g2, r2),
    ensures
        g1.len() >= g2.len(),
{
    if g1.len() < g2.len() {
        let n = start.len() as int;
        let k = g1.len() as int;
        let d = pole.supply_area_distance->0;
        let size = pole.spec_effective_size(Direction::North);
        assert(g1.subrange(0, n) == g2.subrange(0, n));
        lemma_greedy_alike(g1, g2, ps, pole, d, n, k);
        assert(g1.subrange(0, k) == g1);
        let b = g2.subrange(0, k);
        assert(greedy_at(g2, ps, pole, d, k));
        let p = (g2[k].top_left.x as int, g2[k].top_left.y as int);
        let t = choose|t: int| #[trigger] is_target(b, ps, t) && best_spot(b, ps, t, p, size, d);
        lemma_choice_alike(g1, b, ps, t, p, size, d);
        assert(is_target(g1, ps, t));
        assert(candidate(g1, g1[t], p, size, d, window(d, size, g1[t])));
        if r1 is Ok {
            assert(!unpowered(g1, ps, g1[t]));
        } else {
            let t1 = choose|t1: int| #[trigger] is_target(g1, ps, t1) && forall|q: (int, int)|
                !#[trigger] candidate(g1, g1[t1], q, size, d, window(d, size, g1[t1]));
            lemma_choice_unique(g1, ps, t1, t, p, p, size, d);
        }
    }
}

/// Pole placement is deterministic: two runs on the same grid put down the
/// same poles, in the same order, and either both succeed or both refuse,
/// naming the same entity and pole.
pub proof fn lemma_pole_placement_is_deterministic(
    start: Seq<PlacedEntity>,
    ps: Seq<EntityPrototype>,
    pole: EntityPrototype,
    g1: Seq<PlacedEntity>,
    r1: Result<(), LayoutError>,
    g2: Seq<PlacedEntity>,
    r2: Result<(), LayoutError>,
)
    requires
        poles_placed(start, ps, pole, g1, r1),
        poles_placed(start, ps, pole, g2, r2),
    ensures
        g1.len() == g2.len(),
        forall|k: int| 0 <= k < g1.len() ==> same_placement(#[trigger] g1[k], g2[k]),
        r1 is Ok <==> r2 is Ok,
        r1 matches Err(LayoutError::NoRoomForPole { step: s1, pole: n1 }) ==> (r2 matches Err(
            LayoutError::NoRoomForPole { step: s2, pole: n2 },
        ) && s1@ == s2@ && n1@ == n2@),
{
    let n = start.len() as int;
    let d = pole.supply_area_distance->0;
    let size = pole.spec_effective_size(Direction::North);
    lemma_run_not_shorter(start, ps, pole, g1, r1, g2, r2);
    lemma_run_not_shorter(start, ps, pole, g2, r2, g1, r1);
    let m = g1.len() as int;
    assert(g1.subrange(0, n) == g2.subrange(0, n));
    lemma_greedy_alike(g1, g2, ps, pole, d, n, m);
    assert(g1.subrange(0, m) == g1);
    assert(g2.subrange(0, m) == g2);
    assert forall|k: int| 0 <= k < g1.len() implies same_placement(#[trigger] g1[k], g2[k]) by {
        assert(same_shape(g1[k], g2[k]));
        if k < n {
            assert(g1[k] == g1.subrange(0, n)[k]);
            assert(g2[k] == g2.subrange(0, n)[k]);
        } else {
            assert(greedy_at(g1, ps, pole, d, k));
            assert(greedy_at(g2, ps, pole, d, k));
            assert(texts(g1[k].filters@) =~= texts(g2[k].filters@));
        }
    }
    if r1 is Err {
        let t1 = choose|t: int| #[trigger] is_target(g1, ps, t) && r1->Err_0->NoRoomForPole_step@ == label(g1[t]) && forall|q: (int, int)|
            !#[trigger] candidate(g1, g1[t], q, size, d, window(d, size, g1[t]));
        lemma_choice_alike(g1, g2, ps, t1, (0, 0), size, d);
        if r2 is Ok {
            assert(!unpowered(g2, ps, g2[t1]));
            lemma_unpowered_alike(g1, g2, ps, g1[t1], g2[t1]);
        } else {
            let t2 = choose|t: int| #[trigger] is_target(g2, ps, t) && r2->Err_0->NoRoomForPole_step@ == label(g2[t]) && forall|q: (int, int)|
                !#[trigger] candidate(g2, g2[t], q, size, d, window(d, size, g2[t]));
            lemma_choice_unique(g2, ps, t1, t2, (0, 0), (0, 0), size, d);
            if t1 >= n {
                assert(greedy_at(g1, ps, pole, d, t1));
                assert(!spec_needs_power(g1[t1].category));
            }
            assert(g1[t1] == g1.subrange(0, n)[t1]);
            assert(g2[t1] == g2.subrange(0, n)[t1]);
        }
    } else if r2 is Err {
        let t2 = choose|t: int| #[trigger] is_target(g2, ps, t) && r2->Err_0->NoRoomForPole_step@ == label(g2[t]) && forall|q: (int, int)|
            !#[trigger] candidate(g2, g2[t], q, size, d, window(d, size, g2[t]));
        lemma_choice_alike(g1, g2, ps, t2, (0, 0), size, d);
        assert(!unpowered(g1, ps, g1[t2]));
        lemma_unpowered_alike(g1, g2, ps, g1[t2], g2[t2]);
    }
}

/// Placing poles again on a grid that pole placement left fully powered
/// adds nothing and succeeds.
pub proof fn lemma_second_pass_is_a_no_op(
    start: Seq<PlacedEntity>,
    ps: Seq<EntityPrototype>,
    pole: EntityPrototype,
    once: Seq<PlacedEntity>,
    twice: Seq<PlacedEntity>,
    r2: Result<(), LayoutError>,
)
    requires
        poles_placed(start, ps, pole, once, Ok(())),
        poles_placed(once, ps, pole, twice, r2),
    ensures
        twice == once,
        r2 is Ok,
{
    lemma_covered_grid_gets_no_poles(once, twice, ps, pole, pole.supply_area_distance->0);
    if r2 is Err {
        let t = choose|t: int| #[trigger] is_target(twice, ps, t) && r2->Err_0->NoRoomForPole_step@ == label(twice[t]) && forall|q: (int, int)|
            !#[trigger] candidate(twice, twice[t], q, pole.spec_effective_size(Direction::North), pole.supply_area_distance->0, window(pole.supply_area_distance->0, pole.spec_effective_size(Direction::North), twice[t]));
        assert(!unpowered(once, ps, once[t]));
    }
}

/// After a successful pole placement every entity that draws power (an
/// inserter, a crafting machine: assembler, furnace, chemical plant or
/// refinery, a beacon, a combinator or a lamp) lies in the supply area of
/// some pole of the grid.
pub proof fn lemma_placed_poles_power_every_consumer(
    start: Seq<PlacedEntity>,
    ps: Seq<EntityPrototype>,
    pole: EntityPrototype,
    after: Seq<PlacedEntity>,
    i: int,
)
    requires
        poles_placed(start, ps, pole, after, Ok(())),
        0 <= i < after.len(),
        after[i].category == EntityCategory::Inserter || after[i].category == EntityCategory::Assembler || after[i].category
            == EntityCategory::Furnace || after[i].category == EntityCategory::ChemicalPlant || after[i].category
            == EntityCategory::Refinery || after[i].category == EntityCategory::Beacon || after[i].category
            == EntityCategory::Combinator || after[i].category == EntityCategory::Lamp,
    ensures
        exists|k: int| 0 <= k < after.len() && #[trigger] powers(after, ps, k, after[i]),
{
    assert(!unpowered(after, ps, after[i]));
}

} // verus!
