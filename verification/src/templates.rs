//! Reusable layout fragments cut from a grid: the entities of a region,
//! moved so the region's top-left corner is the origin.
use vstd::prelude::*;

use crate::layout::grid::PlacedEntity;
use crate::layout::lane::GridPos;
use crate::prototype::Direction;

verus! {

/// The role of a connection point on a template's boundary.
#[derive(Debug, Clone, Copy, PartialEq, Eq, Structural)]
pub enum IoRole {
    BeltInput,
    BeltOutput,
    FluidInput,
    FluidOutput,
}

/// One entity of a template, placed relative to the template's origin.
#[derive(Debug)]
pub struct TemplateEntity {
    pub prototype_name: String,
    /// Top-left tile of the footprint, relative to the template origin.
    pub relative_pos: GridPos,
    pub direction: Direction,
    pub size: (u32, u32),
    pub recipe: Option<String>,
    /// Entity type tag, if known.
    pub entity_type: Option<String>,
}

/// A named connection point on a template's boundary.
#[derive(Debug)]
pub struct IoPoint {
    pub name: String,
    pub relative_pos: GridPos,
    pub role: IoRole,
}

/// A named, reusable layout fragment.
#[derive(Debug)]
pub struct Template {
    pub name: String,
    pub width: u32,
    pub height: u32,
    pub entities: Vec<TemplateEntity>,
    /// Connection points, assigned later by the user.
    pub io_points: Vec<IoPoint>,
}

/// `e`'s footprint overlaps the region `[min_x, max_x] x [min_y, max_y]`.
pub open spec fn in_region(e: PlacedEntity, min_x: int, min_y: int, max_x: int, max_y: int) -> bool {
    e.top_left.x <= max_x && min_x < e.top_left.x + e.size.0 && e.top_left.y <= max_y && min_y < e.top_left.y + e.size.1
}

/// The template entity `e` becomes, moved by `(-min_x, -min_y)`.
pub open spec fn moved(e: PlacedEntity, t: TemplateEntity, min_x: int, min_y: int) -> bool {
    &&& t.prototype_name@ == e.name@
    &&& t.relative_pos.x == e.top_left.x - min_x
    &&& t.relative_pos.y == e.top_left.y - min_y
    &&& t.direction == e.direction
    &&& t.size == e.size
    &&& crate::layout::cell::opt_text(t.recipe) == crate::layout::cell::opt_text(e.recipe)
}

/// The entities of `grid`, with their entity type tags, whose footprints
/// overlap the region.
pub open spec fn region_entities(grid: Seq<(PlacedEntity, Option<String>)>, min_x: int, min_y: int, max_x: int, max_y: int, n: int) -> Seq<(PlacedEntity, Option<String>)>
    decreases n,
{
    if n <= 0 || n > grid.len() {
        Seq::empty()
    } else if in_region(grid[n - 1].0, min_x, min_y, max_x, max_y) {
        region_entities(grid, min_x, min_y, max_x, max_y, n - 1).push(grid[n - 1])
    } else {
        region_entities(grid, min_x, min_y, max_x, max_y, n - 1)
    }
}

/// Cuts a template named `name` from the region `[min_x, max_x] x
/// [min_y, max_y]` of `grid` (each entity with its type tag, if known):
/// every entity whose footprint overlaps the region, in grid order, moved so
/// that `(min_x, min_y)` is the origin. The template spans the region;
/// connection points are left for the user to assign.
pub fn extract_template(
    grid: &Vec<(PlacedEntity, Option<String>)>,
    min_x: i32,
    min_y: i32,
    max_x: i32,
    max_y: i32,
    name: &str,
) -> (res: Template)
    requires
        i32::MIN <= max_x - min_x && max_x - min_x + 1 <= i32::MAX,
        i32::MIN <= max_y - min_y && max_y - min_y + 1 <= i32::MAX,
        forall|k: int| 0 <= k < grid@.len() ==> i32::MIN <= #[trigger] grid@[k].0.top_left.x - min_x <= i32::MAX && i32::MIN
            <= grid@[k].0.top_left.y - min_y <= i32::MAX,
    ensures
        res.name@ == name@,
        res.width == (max_x - min_x + 1) as u32,
        res.height == (max_y - min_y + 1) as u32,
        res.io_points@.len() == 0,
        res.entities@.len() == region_entities(grid@, min_x as int, min_y as int, max_x as int, max_y as int, grid@.len() as int).len(),
        forall|j: int| 0 <= j < res.entities@.len() ==> {
            let src = region_entities(grid@, min_x as int, min_y as int, max_x as int, max_y as int, grid@.len() as int)[j];
            &&& moved(src.0, #[trigger] res.entities@[j], min_x as int, min_y as int)
            &&& crate::layout::cell::opt_text(res.entities@[j].entity_type) == crate::layout::cell::opt_text(src.1)
        },
{
    let mut out: Vec<TemplateEntity> = Vec::new();
    let mut k: usize = 0;
    while k < grid.len()
        invariant
            k <= grid@.len(),
            forall|k: int| 0 <= k < grid@.len() ==> i32::MIN <= #[trigger] grid@[k].0.top_left.x - min_x <= i32::MAX && i32::MIN
                <= grid@[k].0.top_left.y - min_y <= i32::MAX,
            out@.len() == region_entities(grid@, min_x as int, min_y as int, max_x as int, max_y as int, k as int).len(),
            forall|j: int| 0 <= j < out@.len() ==> {
                let src = region_entities(grid@, min_x as int, min_y as int, max_x as int, max_y as int, k as int)[j];
                &&& moved(src.0, #[trigger] out@[j], min_x as int, min_y as int)
                &&& crate::layout::cell::opt_text(out@[j].entity_type) == crate::layout::cell::opt_text(src.1)
            },
        decreases grid.len() - k,
    {
        let (e, tag) = (&grid[k].0, &grid[k].1);
        let inside = e.top_left.x as i64 <= max_x as i64 && (min_x as i64) < e.top_left.x as i64 + e.size.0 as i64
            && e.top_left.y as i64 <= max_y as i64 && (min_y as i64) < e.top_left.y as i64 + e.size.1 as i64;
        if inside {
            let recipe = match &e.recipe {
                Some(r) => Some(r.clone()),
                None => None,
            };
            let entity_type = match tag {
                Some(t) => Some(t.clone()),
                None => None,
            };
            let t = TemplateEntity {
                prototype_name: e.name.clone(),
                relative_pos: GridPos { x: e.top_left.x - min_x, y: e.top_left.y - min_y },
                direction: e.direction,
                size: e.size,
                recipe,
                entity_type,
            };
            proof {
                assert(in_region(grid@[k as int].0, min_x as int, min_y as int, max_x as int, max_y as int));
            }
            let ghost before = out@;
            out.push(t);
            proof {
                assert(region_entities(grid@, min_x as int, min_y as int, max_x as int, max_y as int, k + 1)
                    == region_entities(grid@, min_x as int, min_y as int, max_x as int, max_y as int, k as int).push(grid@[k as int]));
                assert forall|j: int| 0 <= j < out@.len() implies {
                    let src = region_entities(grid@, min_x as int, min_y as int, max_x as int, max_y as int, k + 1)[j];
                    &&& moved(src.0, #[trigger] out@[j], min_x as int, min_y as int)
                    &&& crate::layout::cell::opt_text(out@[j].entity_type) == crate::layout::cell::opt_text(src.1)
                } by {
                    if j < before.len() {
                        assert(out@[j] == before[j]);
                    }
                }
            }
        } else {
            proof {
                assert(!in_region(grid@[k as int].0, min_x as int, min_y as int, max_x as int, max_y as int));
                assert(region_entities(grid@, min_x as int, min_y as int, max_x as int, max_y as int, k + 1)
                    == region_entities(grid@, min_x as int, min_y as int, max_x as int, max_y as int, k as int));
            }
        }
        k = k + 1;
    }
    let span_x: i32 = max_x - min_x + 1;
    let span_y: i32 = max_y - min_y + 1;
    Template {
        name: String::from_str(name),
        width: #[verifier::truncate] (span_x as u32),
        height: #[verifier::truncate] (span_y as u32),
        entities: out,
        io_points: Vec::new(),
    }
}

/// The region's entities among the first `n` are exactly those of them
/// that `in_region` keeps.
proof fn lemma_region_entities(grid: Seq<(PlacedEntity, Option<String>)>, min_x: int, min_y: int, max_x: int, max_y: int, n: int)
    requires
        0 <= n <= grid.len(),
    ensures
        forall|k: int| 0 <= k < n && in_region(#[trigger] grid[k].0, min_x, min_y, max_x, max_y) ==> region_entities(grid, min_x, min_y, max_x, max_y, n).contains(grid[k]),
        forall|x: (PlacedEntity, Option<String>)| #[trigger] region_entities(grid, min_x, min_y, max_x, max_y, n).contains(x) ==> in_region(x.0, min_x, min_y, max_x, max_y) && grid.contains(x),
    decreases n,
{
    if n > 0 {
        lemma_region_entities(grid, min_x, min_y, max_x, max_y, n - 1);
        let prev = region_entities(grid, min_x, min_y, max_x, max_y, n - 1);
        let cur = region_entities(grid, min_x, min_y, max_x, max_y, n);
        assert forall|k: int| 0 <= k < n && in_region(#[trigger] grid[k].0, min_x, min_y, max_x, max_y) implies cur.contains(grid[k]) by {
            if k < n - 1 {
                assert(prev.contains(grid[k]));
                let j = choose|j: int| 0 <= j < prev.len() && prev[j] == grid[k];
                assert(cur[j] == prev[j]);
            } else {
                assert(cur[prev.len() as int] == grid[k]);
            }
        }
        assert forall|x: (PlacedEntity, Option<String>)| #[trigger] cur.contains(x) implies in_region(x.0, min_x, min_y, max_x, max_y) && grid.contains(x) by {
            let j = choose|j: int| 0 <= j < cur.len() && cur[j] == x;
            if j < prev.len() {
                assert(prev[j] == x && prev.contains(x));
            } else {
                assert(grid[n - 1] == x);
            }
        }
    }
}

/// Tile `(x, y)` lies in `e`'s footprint and in the region
/// `[min_x, max_x] x [min_y, max_y]`.
pub open spec fn shares_tile(e: PlacedEntity, min_x: int, min_y: int, max_x: int, max_y: int, x: int, y: int) -> bool {
    &&& e.top_left.x <= x < e.top_left.x + e.size.0
    &&& e.top_left.y <= y < e.top_left.y + e.size.1
    &&& min_x <= x <= max_x
    &&& min_y <= y <= max_y
}

/// The entities `extract_template` moves into its template, in grid order,
/// hold an entity of the grid exactly when some tile of the entity's
/// footprint lies in the region, both bounds inclusive: an entity that only
/// touches the region's edge from outside is left out.
pub proof fn lemma_template_holds_the_overlapping_entities(
    grid: Seq<(PlacedEntity, Option<String>)>,
    min_x: int,
    min_y: int,
    max_x: int,
    max_y: int,
    k: int,
)
    requires
        0 <= k < grid.len(),
        grid[k].0.size.0 >= 1,
        grid[k].0.size.1 >= 1,
        min_x <= max_x,
        min_y <= max_y,
    ensures
        region_entities(grid, min_x, min_y, max_x, max_y, grid.len() as int).contains(grid[k]) <==> exists|x: int, y: int|
            #[trigger] shares_tile(grid[k].0, min_x, min_y, max_x, max_y, x, y),
{
    lemma_region_entities(grid, min_x, min_y, max_x, max_y, grid.len() as int);
    let e = grid[k].0;
    if in_region(e, min_x, min_y, max_x, max_y) {
        let x = if e.top_left.x >= min_x { e.top_left.x as int } else { min_x };
        let y = if e.top_left.y >= min_y { e.top_left.y as int } else { min_y };
        assert(shares_tile(e, min_x, min_y, max_x, max_y, x, y));
    }
    if exists|x: int, y: int| #[trigger] shares_tile(e, min_x, min_y, max_x, max_y, x, y) {
        let (x, y) = choose|x: int, y: int| #[trigger] shares_tile(e, min_x, min_y, max_x, max_y, x, y);
        assert(in_region(e, min_x, min_y, max_x, max_y));
    }
    if region_entities(grid, min_x, min_y, max_x, max_y, grid.len() as int).contains(grid[k]) {
        assert(in_region(grid[k].0, min_x, min_y, max_x, max_y));
    }
}

} // verus!
