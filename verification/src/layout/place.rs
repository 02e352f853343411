//! Cell placement: one cell's two machine columns, their inserters, and the
//! belts they reach, as the entities to put down in order. Belts run
//! vertically (facing South); each machine column has a gutter on each side
//! for its inserters, one carrying ingredients in and one products out.
use vstd::prelude::*;

use crate::layout::cell::{carrying, opt_text, slot_lanes, total_lanes, CellPlan, CellTopology, Side};
use crate::layout::config::ResolvedConfig;
use crate::layout::error::LayoutError;
use crate::layout::geometry::{
    column_height, lemma_machine_within_column, lemma_rows_stack, machine_row_offset, pole_period, spec_cell_width, spec_column_height,
    spec_pole_period, spec_row_offset, x_layout,
};
use crate::layout::lane::{GridPos, LaneSide};
use crate::layout::orient::{inserter_direction, spec_inserter_direction};
use crate::prototype::{Direction, EntityPrototype};

verus! {

/// One entity to put down: its prototype, top-left tile, facing, footprint
/// as faced, and the recipe a machine is set to.
#[derive(Debug)]
pub struct Placement {
    pub name: String,
    pub top_left: GridPos,
    pub direction: Direction,
    pub size: (u32, u32),
    pub recipe: Option<String>,
}

/// A placement as plain values.
pub type PlacedView = (Seq<char>, int, int, Direction, (u32, u32), Option<Seq<char>>);

pub open spec fn placed_view(p: Placement) -> PlacedView {
    (p.name@, p.top_left.x as int, p.top_left.y as int, p.direction, p.size, opt_text(p.recipe))
}

pub open spec fn views(ps: Seq<Placement>) -> Seq<PlacedView> {
    ps.map_values(|p: Placement| placed_view(p))
}

/// `proto` with its top-left at `(x, y)`, facing `d`.
pub open spec fn entity_at(proto: EntityPrototype, x: int, y: int, d: Direction, recipe: Option<Seq<char>>) -> PlacedView {
    (proto.name@, x, y, d, proto.spec_effective_size(d), recipe)
}

/// Tiles a placed cell occupies, measured from its origin.
#[derive(Debug, Clone, Copy, PartialEq, Eq)]
pub struct CellExtent {
    pub width: u32,
    pub height: u32,
}

/// A machine column's belt-facing gutter: the gutter tile's column, and
/// which way its belts lie from it (`1` toward higher x, `-1` toward lower).
#[derive(Debug, Clone, Copy, PartialEq, Eq)]
pub struct Gutter {
    pub x: i32,
    pub dir: i32,
}

/// One machine column: where its machines stand, how many, and its two
/// gutters, resolved to the stream each carries.
#[derive(Debug, Clone, Copy, PartialEq, Eq)]
pub struct Column {
    pub x0: i32,
    pub machines: u32,
    pub ingredient: Gutter,
    pub product: Gutter,
}

/// Which side of a machine an inserter serves: an ingredient inserter picks
/// up from the belt and drops into the machine; a product one the reverse.
#[derive(Debug, Clone, Copy, PartialEq, Eq)]
pub enum Role {
    Ingredient,
    Product,
}

/// A vertical run of `h` belt tiles at column `x` from row `y0`, facing South.
pub open spec fn belt_column(belt: EntityPrototype, x: int, y0: int, h: int) -> Seq<PlacedView> {
    Seq::new(h as nat, |d: int| entity_at(belt, x, y0 + d, Direction::South, None))
}

/// `count` adjacent belt columns starting at column `x0`.
pub open spec fn belt_columns(belt: EntityPrototype, x0: int, count: int, y0: int, h: int) -> Seq<PlacedView>
    decreases count,
{
    if count <= 0 {
        Seq::empty()
    } else {
        belt_columns(belt, x0, count - 1, y0, h) + belt_column(belt, x0 + count - 1, y0, h)
    }
}

/// The inserter that reaches belt slot `slot`: the plain one next to the
/// belt, the long one for anything further.
pub open spec fn gutter_proto(cfg: ResolvedConfig, slot: int) -> EntityPrototype {
    if slot == 0 {
        *cfg.inserter
    } else {
        *cfg.long_inserter
    }
}

/// Pickup and drop deltas of a gutter inserter serving slot `slot` toward
/// `dir`: the belt lies `slot + 1` tiles one way, the machine as far the other.
pub open spec fn gutter_deltas(dir: int, slot: int, role: Role) -> ((int, int), (int, int)) {
    let b = dir * (slot + 1);
    match role {
        Role::Ingredient => ((b, 0), (-b, 0)),
        Role::Product => ((-b, 0), (b, 0)),
    }
}

/// The facing of that gutter inserter, if its prototype can serve it.
pub open spec fn gutter_direction(cfg: ResolvedConfig, dir: int, slot: int, role: Role) -> Option<Direction> {
    let (pd, id) = gutter_deltas(dir, slot, role);
    spec_inserter_direction(gutter_proto(cfg, slot), pd, id)
}

/// The gutter inserter at `(x, y)` serving slot `slot` toward `dir`.
pub open spec fn gutter_inserter(cfg: ResolvedConfig, x: int, y: int, dir: int, slot: int, role: Role) -> PlacedView {
    entity_at(gutter_proto(cfg, slot), x, y, gutter_direction(cfg, dir, slot, role).unwrap(), None)
}

/// Machine `i` of a column and its inserters: the machine, one ingredient
/// inserter per ingredient slot down its ingredient gutter, one product
/// inserter per product belt down its product gutter.
pub open spec fn machine_group(
    machine: EntityPrototype,
    recipe: Seq<char>,
    cfg: ResolvedConfig,
    col: Column,
    slots: Seq<int>,
    pslots: int,
    oy: int,
    mh: int,
    period: int,
    i: int,
) -> Seq<PlacedView> {
    let y = oy + spec_row_offset(i, mh, period);
    seq![entity_at(machine, col.x0 as int, y, Direction::North, Some(recipe))] + Seq::new(
        slots.len(),
        |j: int| gutter_inserter(cfg, col.ingredient.x as int, y + j, col.ingredient.dir as int, slots[j], Role::Ingredient),
    ) + Seq::new(
        pslots as nat,
        |k: int| gutter_inserter(cfg, col.product.x as int, y + k, col.product.dir as int, k, Role::Product),
    )
}

/// The first `n` machines of a column, with their inserters.
pub open spec fn column_placements(
    machine: EntityPrototype,
    recipe: Seq<char>,
    cfg: ResolvedConfig,
    col: Column,
    slots: Seq<int>,
    pslots: int,
    oy: int,
    mh: int,
    period: int,
    n: int,
) -> Seq<PlacedView>
    decreases n,
{
    if n <= 0 {
        Seq::empty()
    } else {
        column_placements(machine, recipe, cfg, col, slots, pslots, oy, mh, period, n - 1) + machine_group(
            machine,
            recipe,
            cfg,
            col,
            slots,
            pslots,
            oy,
            mh,
            period,
            n - 1,
        )
    }
}

/// Every inserter a column needs has a facing that serves it.
pub open spec fn column_orients(cfg: ResolvedConfig, col: Column, slots: Seq<int>, pslots: int) -> bool {
    col.machines > 0 ==> {
        &&& forall|j: int| 0 <= j < slots.len() ==> #[trigger] gutter_direction(cfg, col.ingredient.dir as int, slots[j], Role::Ingredient) is Some
        &&& forall|k: int| 0 <= k < pslots ==> #[trigger] gutter_direction(cfg, col.product.dir as int, k, Role::Product) is Some
    }
}

/// `n` names the prototype of some inserter the column needs and no facing serves.
pub open spec fn unserved_inserter(cfg: ResolvedConfig, col: Column, slots: Seq<int>, pslots: int, n: Seq<char>) -> bool {
    col.machines > 0 && ((exists|j: int|
        0 <= j < slots.len() && #[trigger] gutter_direction(cfg, col.ingredient.dir as int, slots[j], Role::Ingredient) is None
            && n == gutter_proto(cfg, slots[j]).name@) || (exists|k: int|
        0 <= k < pslots && #[trigger] gutter_direction(cfg, col.product.dir as int, k, Role::Product) is None
            && n == gutter_proto(cfg, k).name@))
}

/// The ingredient slots a machine needs inserters for: each ingredient's
/// belt slots in allocation order, then in slot order.
pub open spec fn slot_list(alloc: Seq<(String, u32)>, upto: int) -> Seq<int>
    decreases upto,
{
    if upto <= 0 || upto > alloc.len() {
        Seq::empty()
    } else {
        slot_list(alloc, upto - 1) + carrying(slot_lanes(alloc), alloc[upto - 1].0@)
    }
}

/// The two machine columns of a cell at `origin`: column A takes from and
/// drops to whichever gutter `ingredients_on` names; column B mirrors it.
pub open spec fn spec_columns(topo: CellTopology, ox: int, edge_left: bool, mw: int, plan_columns: (u32, u32)) -> (Column, Column) {
    let e = topo.edge_belts as int;
    let s = topo.spine_belts as int;
    let gal = ox + if edge_left { e } else { 0 };
    let cax = gal + 1;
    let gar = cax + mw;
    let gbl = gar + 1 + s;
    let cbx = gbl + 1;
    let gbr = cbx + mw;
    let (a_ing, a_prod, b_ing, b_prod) = match topo.ingredients_on {
        Side::Spine => (
            Gutter { x: gar as i32, dir: 1i32 },
            Gutter { x: gal as i32, dir: -1i32 },
            Gutter { x: gbl as i32, dir: -1i32 },
            Gutter { x: gbr as i32, dir: 1i32 },
        ),
        Side::Edge => (
            Gutter { x: gal as i32, dir: -1i32 },
            Gutter { x: gar as i32, dir: 1i32 },
            Gutter { x: gbr as i32, dir: 1i32 },
            Gutter { x: gbl as i32, dir: -1i32 },
        ),
    };
    (
        Column { x0: cax as i32, machines: plan_columns.0, ingredient: a_ing, product: a_prod },
        Column { x0: cbx as i32, machines: plan_columns.1, ingredient: b_ing, product: b_prod },
    )
}

/// Machines between reserved pole rows under `cfg`'s pole.
pub open spec fn cfg_period(cfg: ResolvedConfig, mh: int) -> int {
    spec_pole_period(cfg.pole.supply_area_distance->0, mh)
}

/// A cell's height: its taller column, reserved pole rows included, at
/// least one row.
pub open spec fn cell_height(plan_columns: (u32, u32), mh: int, period: int) -> int {
    let a = spec_column_height(plan_columns.0 as int, mh, period);
    let b = spec_column_height(plan_columns.1 as int, mh, period);
    let tallest = if a >= b { a } else { b };
    if tallest >= 1 { tallest } else { 1 }
}

/// Everything a cell puts down, in order: its left edge belts when it owns
/// them, the spine belts and the right edge belts, then column A's machines
/// with their inserters and column B's.
pub open spec fn cell_placements(
    machine: EntityPrototype,
    recipe: Seq<char>,
    cfg: ResolvedConfig,
    topo: CellTopology,
    origin: GridPos,
    edge_left: bool,
    plan_columns: (u32, u32),
    slots: Seq<int>,
) -> Seq<PlacedView> {
    let mw = machine.tile_width as int;
    let mh = machine.tile_height as int;
    let e = topo.edge_belts as int;
    let s = topo.spine_belts as int;
    let ox = origin.x as int;
    let oy = origin.y as int;
    let gal = ox + if edge_left { e } else { 0 };
    let spine_x0 = gal + 1 + mw + 1;
    let right_x0 = spine_x0 + s + 1 + mw + 1;
    let period = cfg_period(cfg, mh);
    let h = cell_height(plan_columns, mh, period);
    let (a, b) = spec_columns(topo, ox, edge_left, mw, plan_columns);
    let pslots = topo.spec_product_belts() as int;
    (if edge_left { belt_columns(*cfg.belt, ox, e, oy, h) } else { Seq::empty() }) + belt_columns(*cfg.belt, spine_x0, s, oy, h)
        + belt_columns(*cfg.belt, right_x0, e, oy, h) + column_placements(
        machine,
        recipe,
        cfg,
        a,
        slots,
        pslots,
        oy,
        mh,
        period,
        a.machines as int,
    ) + column_placements(machine, recipe, cfg, b, slots, pslots, oy, mh, period, b.machines as int)
}

/// Where product inserter `k` of machine `i` in `col` drops: the belt tile
/// `k + 1` tiles out from the product gutter, on the lane away from the
/// inserter.
pub open spec fn product_drop(col: Column, oy: int, mh: int, period: int, i: int, k: int) -> (int, int, LaneSide) {
    (
        col.product.x + col.product.dir * (k + 1),
        oy + spec_row_offset(i, mh, period) + k,
        if col.product.dir > 0 { LaneSide::East } else { LaneSide::West },
    )
}

/// No two product inserters of a cell drop onto the same lane of the same
/// belt tile: within a column each machine's inserters sit on rows of their
/// own, one per product belt, and the two columns drop from opposite sides,
/// so onto opposite lanes. (Each inserter of `cell_placements` is placed at
/// its gutter tile facing so that it drops exactly there.)
pub proof fn lemma_product_lanes_claimed_once(
    topo: CellTopology,
    ox: int,
    oy: int,
    edge_left: bool,
    mw: int,
    mh: int,
    period: int,
    plan_columns: (u32, u32),
    a: (bool, int, int),
    b: (bool, int, int),
)
    requires
        mh >= 1,
        period >= 1,
        topo.spec_product_belts() <= mh,
        0 <= a.2 < topo.spec_product_belts(),
        0 <= b.2 < topo.spec_product_belts(),
        0 <= a.1 < (if a.0 { plan_columns.0 as int } else { plan_columns.1 as int }),
        0 <= b.1 < (if b.0 { plan_columns.0 as int } else { plan_columns.1 as int }),
        a != b,
    ensures
        ({
            let (col_a, col_b) = spec_columns(topo, ox, edge_left, mw, plan_columns);
            let ca = if a.0 { col_a } else { col_b };
            let cb = if b.0 { col_a } else { col_b };
            product_drop(ca, oy, mh, period, a.1, a.2) != product_drop(cb, oy, mh, period, b.1, b.2)
        }),
{
    let (col_a, col_b) = spec_columns(topo, ox, edge_left, mw, plan_columns);
    let ca = if a.0 { col_a } else { col_b };
    let cb = if b.0 { col_a } else { col_b };
    let pa = product_drop(ca, oy, mh, period, a.1, a.2);
    let pb = product_drop(cb, oy, mh, period, b.1, b.2);
    if a.0 == b.0 {
        if a.1 == b.1 {
            assert(a.2 != b.2);
            assert(ca.product.dir * (a.2 + 1) != ca.product.dir * (b.2 + 1)) by (nonlinear_arith)
                requires
                    ca.product.dir == 1 || ca.product.dir == -1,
                    a.2 != b.2,
            ;
        } else {
            if a.1 < b.1 {
                lemma_rows_increase(a.1, b.1, mh, period);
            } else {
                lemma_rows_increase(b.1, a.1, mh, period);
            }
        }
    } else {
        assert(col_a.product.dir == -col_b.product.dir);
    }
}

/// Rows of later machines start at least a machine height further down.
proof fn lemma_rows_increase(i: int, j: int, mh: int, period: int)
    requires
        0 <= i < j,
        mh >= 0,
        period >= 1,
    ensures
        spec_row_offset(j, mh, period) >= spec_row_offset(i, mh, period) + mh,
    decreases j - i,
{
    lemma_rows_stack(j - 1, mh, period, j + 1);
    if i < j - 1 {
        lemma_rows_increase(i, j - 1, mh, period);
        assert(spec_row_offset(j - 1, mh, period) >= spec_row_offset(i, mh, period) + mh);
        assert(mh >= 0);
    }
}

/// Coordinates of a cell fit in an `i32`.
pub open spec fn cell_fits(
    machine: EntityPrototype,
    cfg: ResolvedConfig,
    topo: CellTopology,
    origin: GridPos,
    edge_left: bool,
    plan_columns: (u32, u32),
) -> bool {
    let mh = machine.tile_height as int;
    &&& origin.x + spec_cell_width(machine.tile_width as int, topo, edge_left) <= i32::MAX
    &&& origin.y + cell_height(plan_columns, mh, cfg_period(cfg, mh)) <= i32::MAX
    &&& cell_height(plan_columns, mh, cfg_period(cfg, mh)) <= u32::MAX
}

pub(crate) fn entity(proto: &EntityPrototype, x: i32, y: i32, d: Direction, recipe: Option<&str>) -> (res: Placement)
    ensures
        placed_view(res) == entity_at(*proto, x as int, y as int, d, match recipe {
            Some(r) => Some(r@),
            None => None,
        }),
{
    let rec = match recipe {
        Some(r) => Some(String::from_str(r)),
        None => None,
    };
    Placement { name: proto.name.clone(), top_left: GridPos { x, y }, direction: d, size: proto.effective_size(d), recipe: rec }
}

/// One belt per row from `y0`, `h` rows, at column `x`, all facing South.
fn place_belt_column(grid: &mut Vec<Placement>, belt: &EntityPrototype, x: i32, y0: i32, h: u32)
    requires
        y0 + h <= i32::MAX + 1,
    ensures
        views(final(grid)@) == views(old(grid)@) + belt_column(*belt, x as int, y0 as int, h as int),
{
    let ghost start = views(grid@);
    let mut dy: u32 = 0;
    while dy < h
        invariant
            dy <= h,
            y0 + h <= i32::MAX + 1,
            views(grid@) == start + belt_column(*belt, x as int, y0 as int, h as int).subrange(0, dy as int),
        decreases h - dy,
    {
        let ghost before = grid@;
        let yy: i64 = y0 as i64 + dy as i64;
        let p = entity(belt, x, yy as i32, Direction::South, None);
        assert(placed_view(p) == belt_column(*belt, x as int, y0 as int, h as int)[dy as int]);
        grid.push(p);
        proof {
            assert(views(grid@) =~= views(before).push(placed_view(p)));
            assert(views(grid@) =~= start + belt_column(*belt, x as int, y0 as int, h as int).subrange(0, dy + 1));
        }
        dy = dy + 1;
    }
    proof {
        assert(belt_column(*belt, x as int, y0 as int, h as int).subrange(0, h as int) =~= belt_column(*belt, x as int, y0 as int, h as int));
    }
}

/// `count` adjacent belt columns from column `x0`.
fn place_belt_columns(grid: &mut Vec<Placement>, belt: &EntityPrototype, x0: i32, count: i32, y0: i32, h: u32)
    requires
        count >= 0,
        x0 + count <= i32::MAX + 1,
        y0 + h <= i32::MAX + 1,
    ensures
        views(final(grid)@) == views(old(grid)@) + belt_columns(*belt, x0 as int, count as int, y0 as int, h as int),
{
    let ghost start = views(grid@);
    let mut k: i32 = 0;
    while k < count
        invariant
            0 <= k <= count,
            x0 + count <= i32::MAX + 1,
            y0 + h <= i32::MAX + 1,
            views(grid@) == start + belt_columns(*belt, x0 as int, k as int, y0 as int, h as int),
        decreases count - k,
    {
        place_belt_column(grid, belt, x0 + k, y0, h);
        proof {
            assert(belt_columns(*belt, x0 as int, k + 1, y0 as int, h as int) == belt_columns(*belt, x0 as int, k as int, y0 as int, h as int)
                + belt_column(*belt, x0 + k, y0 as int, h as int));
        }
        k = k + 1;
    }
}

/// The facing of the gutter inserter serving `slot` toward `dir`.
fn gutter_facing(cfg: &ResolvedConfig, dir: i32, slot: u32, role: Role) -> (res: Result<Direction, LayoutError>)
    requires
        cfg.wf(),
        dir == 1 || dir == -1,
    ensures
        match gutter_direction(*cfg, dir as int, slot as int, role) {
            Some(d) => res == Ok::<Direction, LayoutError>(d),
            None => res matches Err(LayoutError::InserterUnknown(n)) && n@ == gutter_proto(*cfg, slot as int).name@,
        },
{
    let proto = if slot == 0 { cfg.inserter } else { cfg.long_inserter };
    let b: i64 = dir as i64 * (slot as i64 + 1);
    let (pd, id) = match role {
        Role::Ingredient => ((b, 0i64), (-b, 0i64)),
        Role::Product => ((-b, 0i64), (b, 0i64)),
    };
    inserter_direction(proto, pd, id)
}

/// The facings a column's inserters need: one per ingredient slot and one
/// per product belt. Refused, before anything is placed, when some inserter
/// has no facing that serves it.
fn column_facings(cfg: &ResolvedConfig, col: Column, slots: &Vec<u32>, pslots: u32) -> (res: Result<
    (Vec<Direction>, Vec<Direction>),
    LayoutError,
>)
    requires
        cfg.wf(),
        col.machines > 0,
        col.ingredient.dir == 1 || col.ingredient.dir == -1,
        col.product.dir == 1 || col.product.dir == -1,
    ensures
        match res {
            Ok((ing, prod)) => column_orients(*cfg, col, slots@.map_values(|x: u32| x as int), pslots as int) && ing@.len()
                == slots@.len() && prod@.len() == pslots && (forall|j: int| 0 <= j < slots@.len() ==> Some(#[trigger] ing@[j])
                == gutter_direction(*cfg, col.ingredient.dir as int, slots@[j] as int, Role::Ingredient)) && (forall|k: int|
                0 <= k < pslots ==> Some(#[trigger] prod@[k]) == gutter_direction(*cfg, col.product.dir as int, k, Role::Product)),
            Err(LayoutError::InserterUnknown(n)) => unserved_inserter(*cfg, col, slots@.map_values(|x: u32| x as int), pslots as int, n@),
            Err(_) => false,
        },
{
    let ghost sl = slots@.map_values(|x: u32| x as int);
    let mut ing: Vec<Direction> = Vec::new();
    let mut j: usize = 0;
    while j < slots.len()
        invariant
            cfg.wf(),
            col.machines > 0,
            col.ingredient.dir == 1 || col.ingredient.dir == -1,
            j <= slots@.len(),
            sl == slots@.map_values(|x: u32| x as int),
            ing@.len() == j,
            forall|t: int| 0 <= t < j ==> Some(#[trigger] ing@[t]) == gutter_direction(*cfg, col.ingredient.dir as int, sl[t], Role::Ingredient),
        decreases slots.len() - j,
    {
        match gutter_facing(cfg, col.ingredient.dir, slots[j], Role::Ingredient) {
            Ok(d) => {
                ing.push(d);
            },
            Err(e) => {
                proof {
                    assert(sl[j as int] == slots@[j as int] as int);
                    assert(gutter_direction(*cfg, col.ingredient.dir as int, sl[j as int], Role::Ingredient) is None);
                }
                return Err(e);
            },
        }
        j = j + 1;
    }
    let mut prod: Vec<Direction> = Vec::new();
    let mut k: u32 = 0;
    while k < pslots
        invariant
            cfg.wf(),
            col.machines > 0,
            col.product.dir == 1 || col.product.dir == -1,
            k <= pslots,
            prod@.len() == k,
            forall|t: int| 0 <= t < k ==> Some(#[trigger] prod@[t]) == gutter_direction(*cfg, col.product.dir as int, t, Role::Product),
        decreases pslots - k,
    {
        match gutter_facing(cfg, col.product.dir, k, Role::Product) {
            Ok(d) => {
                prod.push(d);
            },
            Err(e) => {
                proof {
                    assert(gutter_direction(*cfg, col.product.dir as int, k as int, Role::Product) is None);
                }
                return Err(e);
            },
        }
        k = k + 1;
    }
    proof {
        assert forall|t: int| 0 <= t < sl.len() implies #[trigger] gutter_direction(*cfg, col.ingredient.dir as int, sl[t], Role::Ingredient) is Some by {
            assert(Some(ing@[t]) == gutter_direction(*cfg, col.ingredient.dir as int, sl[t], Role::Ingredient));
        }
        assert forall|t: int| 0 <= t < pslots implies #[trigger] gutter_direction(*cfg, col.product.dir as int, t, Role::Product) is Some by {
            assert(Some(prod@[t]) == gutter_direction(*cfg, col.product.dir as int, t, Role::Product));
        }
    }
    Ok((ing, prod))
}

/// A column's machines, each with its ingredient and product inserters.
fn place_column(
    grid: &mut Vec<Placement>,
    machine: &EntityPrototype,
    recipe: &str,
    cfg: &ResolvedConfig,
    col: Column,
    slots: &Vec<u32>,
    pslots: u32,
    oy: i32,
    mh: u32,
    period: u32,
    ing: &Vec<Direction>,
    prod: &Vec<Direction>,
)
    requires
        cfg.wf(),
        period >= 1,
        col.machines > 0 ==> {
            &&& ing@.len() == slots@.len()
            &&& prod@.len() == pslots
            &&& slots@.len() <= mh
            &&& pslots <= mh
            &&& forall|j: int| 0 <= j < slots@.len() ==> Some(#[trigger] ing@[j]) == gutter_direction(*cfg, col.ingredient.dir as int, slots@[j] as int, Role::Ingredient)
            &&& forall|k: int| 0 <= k < pslots ==> Some(#[trigger] prod@[k]) == gutter_direction(*cfg, col.product.dir as int, k, Role::Product)
        },
        oy + spec_column_height(col.machines as int, mh as int, period as int) <= i32::MAX,
    ensures
        views(final(grid)@) == views(old(grid)@) + column_placements(
            *machine,
            recipe@,
            *cfg,
            col,
            slots@.map_values(|x: u32| x as int),
            pslots as int,
            oy as int,
            mh as int,
            period as int,
            col.machines as int,
        ),
{
    let ghost sl = slots@.map_values(|x: u32| x as int);
    let ghost start = views(grid@);
    if col.machines == 0 {
        proof {
            assert(views(grid@) =~= start + column_placements(*machine, recipe@, *cfg, col, sl, pslots as int, oy as int, mh as int, period as int, 0));
        }
        return;
    }
    let mut i: u32 = 0;
    while i < col.machines
        invariant
            col.machines > 0,
            i <= col.machines,
            cfg.wf(),
            sl == slots@.map_values(|x: u32| x as int),
            ing@.len() == slots@.len(),
            prod@.len() == pslots,
            slots@.len() <= mh,
            pslots <= mh,
            forall|j: int| 0 <= j < slots@.len() ==> Some(#[trigger] ing@[j]) == gutter_direction(*cfg, col.ingredient.dir as int, slots@[j] as int, Role::Ingredient),
            forall|k: int| 0 <= k < pslots ==> Some(#[trigger] prod@[k]) == gutter_direction(*cfg, col.product.dir as int, k, Role::Product),
            period >= 1,
            oy + spec_column_height(col.machines as int, mh as int, period as int) <= i32::MAX,
            views(grid@) == start + column_placements(*machine, recipe@, *cfg, col, sl, pslots as int, oy as int, mh as int, period as int, i as int),
        decreases col.machines - i,
    {
        proof {
            lemma_machine_within_column(i as int, mh as int, period as int, col.machines as int);
        }
        let off = machine_row_offset(i, mh, period);
        let y: i32 = (oy as i64 + off as i64) as i32;
        let ghost group = machine_group(*machine, recipe@, *cfg, col, sl, pslots as int, oy as int, mh as int, period as int, i as int);
        let ghost base = views(grid@);
        grid.push(entity(machine, col.x0, y, Direction::North, Some(recipe)));
        proof {
            assert(views(grid@) =~= base + group.subrange(0, 1));
        }
        let mut j: usize = 0;
        while j < slots.len()
            invariant
                j <= slots@.len(),
                cfg.wf(),
                sl == slots@.map_values(|x: u32| x as int),
                ing@.len() == slots@.len(),
                slots@.len() <= mh,
                forall|j: int| 0 <= j < slots@.len() ==> Some(#[trigger] ing@[j]) == gutter_direction(*cfg, col.ingredient.dir as int, slots@[j] as int, Role::Ingredient),
                y + mh <= i32::MAX,
                y == oy + spec_row_offset(i as int, mh as int, period as int),
                group == machine_group(*machine, recipe@, *cfg, col, sl, pslots as int, oy as int, mh as int, period as int, i as int),
                views(grid@) == base + group.subrange(0, 1 + j),
            decreases slots.len() - j,
        {
            let slot = slots[j];
            let proto = if slot == 0 { cfg.inserter } else { cfg.long_inserter };
            let ghost before = grid@;
            grid.push(entity(proto, col.ingredient.x, (y as i64 + j as i64) as i32, ing[j], None));
            proof {
                assert(sl[j as int] == slot as int);
                assert(group[1 + j] == gutter_inserter(*cfg, col.ingredient.x as int, y + j, col.ingredient.dir as int, sl[j as int], Role::Ingredient));
                assert(views(grid@) =~= views(before).push(group[1 + j]));
                assert(views(grid@) =~= base + group.subrange(0, 1 + j + 1));
            }
            j = j + 1;
        }
        let mut k: u32 = 0;
        while k < pslots
            invariant
                k <= pslots,
                cfg.wf(),
                sl == slots@.map_values(|x: u32| x as int),
                prod@.len() == pslots,
                pslots <= mh,
                forall|k: int| 0 <= k < pslots ==> Some(#[trigger] prod@[k]) == gutter_direction(*cfg, col.product.dir as int, k, Role::Product),
                y + mh <= i32::MAX,
                y == oy + spec_row_offset(i as int, mh as int, period as int),
                group == machine_group(*machine, recipe@, *cfg, col, sl, pslots as int, oy as int, mh as int, period as int, i as int),
                views(grid@) == base + group.subrange(0, 1 + sl.len() + k),
            decreases pslots - k,
        {
            let proto = if k == 0 { cfg.inserter } else { cfg.long_inserter };
            let ghost before = grid@;
            grid.push(entity(proto, col.product.x, (y as i64 + k as i64) as i32, prod[k as usize], None));
            proof {
                assert(group[1 + sl.len() + k] == gutter_inserter(*cfg, col.product.x as int, y + k, col.product.dir as int, k as int, Role::Product));
                assert(views(grid@) =~= views(before).push(group[1 + sl.len() + k]));
                assert(views(grid@) =~= base + group.subrange(0, 1 + sl.len() + k + 1));
            }
            k = k + 1;
        }
        proof {
            assert(group.subrange(0, group.len() as int) =~= group);
            assert(views(grid@) == start + column_placements(*machine, recipe@, *cfg, col, sl, pslots as int, oy as int, mh as int, period as int, i + 1));
        }
        i = i + 1;
    }
}


/// `needed` inserters against a gutter of `edge_tiles` tiles.
fn no_room(recipe: &str, machine: &EntityPrototype, needed: usize, edge_tiles: u32) -> (res: LayoutError)
    ensures
        res matches LayoutError::NoRoomForInserters { recipe: r, machine: m, needed: n, edge_tiles: t } && r@ == recipe@
            && m@ == machine.name@ && n == needed && t == edge_tiles,
{
    LayoutError::NoRoomForInserters { recipe: String::from_str(recipe), machine: machine.name.clone(), needed, edge_tiles }
}

/// Some slot lies beyond the one next to the gutter.
pub open spec fn reaches_past_first(slots: Seq<int>) -> bool {
    exists|j: int| 0 <= j < slots.len() && #[trigger] slots[j] >= 1
}

/// The ingredient slots a machine needs inserters for.
fn ingredient_slots(plan: &CellPlan) -> (res: Vec<u32>)
    requires
        total_lanes(plan.lane_allocation@) <= u32::MAX,
    ensures
        res@.map_values(|x: u32| x as int) == slot_list(plan.lane_allocation@, plan.lane_allocation@.len() as int),
{
    let alloc = &plan.lane_allocation;
    let mut slots: Vec<u32> = Vec::new();
    let mut t: usize = 0;
    while t < alloc.len()
        invariant
            t <= alloc@.len(),
            alloc == &plan.lane_allocation,
            total_lanes(alloc@) <= u32::MAX,
            slots@.map_values(|x: u32| x as int) == slot_list(alloc@, t as int),
        decreases alloc.len() - t,
    {
        let ghost before = slots@;
        let bs = plan.ingredient_belts(alloc[t].0.as_str());
        let mut u: usize = 0;
        while u < bs.len()
            invariant
                u <= bs@.len(),
                slots@.map_values(|x: u32| x as int) == before.map_values(|x: u32| x as int) + bs@.map_values(|x: u32| x as int).subrange(0, u as int),
            decreases bs.len() - u,
        {
            let ghost mid = slots@;
            slots.push(bs[u]);
            proof {
                assert(slots@.map_values(|x: u32| x as int) =~= mid.map_values(|x: u32| x as int).push(bs@[u as int] as int));
                assert(slots@.map_values(|x: u32| x as int) =~= before.map_values(|x: u32| x as int) + bs@.map_values(|x: u32| x as int).subrange(0, u + 1));
            }
            u = u + 1;
        }
        proof {
            assert(bs@.map_values(|x: u32| x as int).subrange(0, u as int) =~= bs@.map_values(|x: u32| x as int));
        }
        t = t + 1;
    }
    slots
}

/// The refusals a cell with machines meets before anything is placed: too
/// many ingredient inserters for the gutter, too many product inserters, or
/// a long inserter reaching past a machine narrower than two tiles.
pub open spec fn room_checked(
    recipe: Seq<char>,
    machine: EntityPrototype,
    slots: Seq<int>,
    pslots: int,
    res: Result<(), LayoutError>,
) -> bool {
    let mw = machine.tile_width as int;
    let mh = machine.tile_height as int;
    if slots.len() > mh {
        res matches Err(LayoutError::NoRoomForInserters { recipe: r, machine: m, needed, edge_tiles }) && r@ == recipe
            && m@ == machine.name@ && needed == slots.len() && edge_tiles == mh
    } else if pslots > mh {
        res matches Err(LayoutError::NoRoomForInserters { recipe: r, machine: m, needed, edge_tiles }) && r@ == recipe
            && m@ == machine.name@ && needed == pslots && edge_tiles == mh
    } else if (reaches_past_first(slots) || pslots >= 2) && mw < 2 {
        res matches Err(LayoutError::MachineTooNarrowForLongInserter { recipe: r, machine: m, width }) && r@ == recipe
            && m@ == machine.name@ && width == mw
    } else {
        res is Ok
    }
}

fn check_room(recipe: &str, machine: &EntityPrototype, slots: &Vec<u32>, pslots: u32) -> (res: Result<(), LayoutError>)
    ensures
        room_checked(recipe@, *machine, slots@.map_values(|x: u32| x as int), pslots as int, res),
{
    let ghost sl = slots@.map_values(|x: u32| x as int);
    let mw = machine.tile_width;
    let mh = machine.tile_height;
    if slots.len() > mh as usize {
        return Err(no_room(recipe, machine, slots.len(), mh));
    }
    if pslots > mh {
        return Err(no_room(recipe, machine, pslots as usize, mh));
    }
    let mut far = false;
    let mut j: usize = 0;
    while j < slots.len()
        invariant
            j <= slots@.len(),
            sl == slots@.map_values(|x: u32| x as int),
            far <==> exists|t: int| 0 <= t < j && #[trigger] sl[t] >= 1,
        decreases slots.len() - j,
    {
        if slots[j] >= 1 {
            far = true;
            proof {
                assert(sl[j as int] >= 1);
            }
        }
        j = j + 1;
    }
    if (far || pslots >= 2) && mw < 2 {
        return Err(LayoutError::MachineTooNarrowForLongInserter {
            recipe: String::from_str(recipe),
            machine: machine.name.clone(),
            width: mw,
        });
    }
    Ok(())
}

/// Puts down a cell that passed its checks: belts, then both columns.
#[verifier::rlimit(40)]
fn put_cell(
    grid: &mut Vec<Placement>,
    machine: &EntityPrototype,
    recipe: &str,
    plan_columns: (u32, u32),
    cfg: &ResolvedConfig,
    topo: &CellTopology,
    origin: GridPos,
    edge_left: bool,
    slots: &Vec<u32>,
    col_a: Column,
    col_b: Column,
    facings_a: (Vec<Direction>, Vec<Direction>),
    facings_b: (Vec<Direction>, Vec<Direction>),
) -> (res: CellExtent)
    requires
        machine.wf(),
        cfg.wf(),
        cell_fits(*machine, *cfg, *topo, origin, edge_left, plan_columns),
        (col_a, col_b) == spec_columns(*topo, origin.x as int, edge_left, machine.tile_width as int, plan_columns),
        col_a.machines > 0 ==> {
            &&& facings_a.0@.len() == slots@.len()
            &&& facings_a.1@.len() == topo.spec_product_belts()
            &&& slots@.len() <= machine.tile_height
            &&& topo.spec_product_belts() <= machine.tile_height
            &&& forall|j: int| 0 <= j < slots@.len() ==> Some(#[trigger] facings_a.0@[j]) == gutter_direction(*cfg, col_a.ingredient.dir as int, slots@[j] as int, Role::Ingredient)
            &&& forall|k: int| 0 <= k < topo.spec_product_belts() ==> Some(#[trigger] facings_a.1@[k]) == gutter_direction(*cfg, col_a.product.dir as int, k, Role::Product)
        },
        col_b.machines > 0 ==> {
            &&& facings_b.0@.len() == slots@.len()
            &&& facings_b.1@.len() == topo.spec_product_belts()
            &&& slots@.len() <= machine.tile_height
            &&& topo.spec_product_belts() <= machine.tile_height
            &&& forall|j: int| 0 <= j < slots@.len() ==> Some(#[trigger] facings_b.0@[j]) == gutter_direction(*cfg, col_b.ingredient.dir as int, slots@[j] as int, Role::Ingredient)
            &&& forall|k: int| 0 <= k < topo.spec_product_belts() ==> Some(#[trigger] facings_b.1@[k]) == gutter_direction(*cfg, col_b.product.dir as int, k, Role::Product)
        },
    ensures
        res.width == spec_cell_width(machine.tile_width as int, *topo, edge_left),
        res.height == cell_height(plan_columns, machine.tile_height as int, cfg_period(*cfg, machine.tile_height as int)),
        views(final(grid)@) == views(old(grid)@) + cell_placements(
            *machine,
            recipe@,
            *cfg,
            *topo,
            origin,
            edge_left,
            plan_columns,
            slots@.map_values(|x: u32| x as int),
        ),
{
    let mw = machine.tile_width;
    let mh = machine.tile_height;
    let xl = x_layout(mw, topo, edge_left);
    let ox = origin.x;
    let oy = origin.y;
    let e = topo.edge_belts as i32;
    let s = topo.spine_belts as i32;
    let spine_x0 = ox + xl.spine_x0;
    let right_edge_x0 = ox + xl.right_edge_x0;
    let period: u32 = match cfg.pole.supply_area_distance {
        Some(d) => pole_period(d, mh),
        None => 1,
    };
    let ghost ch = cell_height(plan_columns, mh as int, period as int);
    assert(period == cfg_period(*cfg, mh as int));
    let ha = column_height(plan_columns.0, mh, period);
    let hb = column_height(plan_columns.1, mh, period);
    let tallest = if ha >= hb { ha } else { hb };
    let height: u32 = if tallest >= 1 { tallest as u32 } else { 1 };
    let pslots = topo.product_belts();
    let ghost v0 = views(grid@);
    if edge_left {
        place_belt_columns(grid, cfg.belt, ox, e, oy, height);
    }
    place_belt_columns(grid, cfg.belt, spine_x0, s, oy, height);
    place_belt_columns(grid, cfg.belt, right_edge_x0, e, oy, height);
    place_column(grid, machine, recipe, cfg, col_a, slots, pslots, oy, mh, period, &facings_a.0, &facings_a.1);
    place_column(grid, machine, recipe, cfg, col_b, slots, pslots, oy, mh, period, &facings_b.0, &facings_b.1);
    proof {
        let sl = slots@.map_values(|x: u32| x as int);
        assert(views(grid@) =~= v0 + cell_placements(*machine, recipe@, *cfg, *topo, origin, edge_left, plan_columns, sl));
    }
    CellExtent { width: xl.width as u32, height }
}

/// A cell of these columns passes its checks and every inserter it needs
/// has a facing.
pub open spec fn cell_ok(
    machine: EntityPrototype,
    recipe: Seq<char>,
    cfg: ResolvedConfig,
    topo: CellTopology,
    ox: int,
    edge_left: bool,
    columns: (u32, u32),
    slots: Seq<int>,
) -> bool {
    let pslots = topo.spec_product_belts() as int;
    let cols = spec_columns(topo, ox, edge_left, machine.tile_width as int, columns);
    &&& !((columns.0 > 0 || columns.1 > 0) && !room_checked(recipe, machine, slots, pslots, Ok(())))
    &&& column_orients(cfg, cols.0, slots, pslots)
    &&& column_orients(cfg, cols.1, slots, pslots)
}

/// `e` is how a cell of these columns is refused: the first of its room
/// checks that fails, or else an inserter no facing serves.
pub open spec fn cell_refusal(
    machine: EntityPrototype,
    recipe: Seq<char>,
    cfg: ResolvedConfig,
    topo: CellTopology,
    ox: int,
    edge_left: bool,
    columns: (u32, u32),
    slots: Seq<int>,
    e: LayoutError,
) -> bool {
    let pslots = topo.spec_product_belts() as int;
    let cols = spec_columns(topo, ox, edge_left, machine.tile_width as int, columns);
    if (columns.0 > 0 || columns.1 > 0) && !room_checked(recipe, machine, slots, pslots, Ok(())) {
        room_checked(recipe, machine, slots, pslots, Err(e))
    } else {
        e matches LayoutError::InserterUnknown(n) && (unserved_inserter(cfg, cols.0, slots, pslots, n@) || unserved_inserter(
            cfg,
            cols.1,
            slots,
            pslots,
            n@,
        ))
    }
}

/// A cell with the given column counts; see `place_cell`.
pub(crate) fn place_cell_columns(
    grid: &mut Vec<Placement>,
    machine: &EntityPrototype,
    recipe: &str,
    plan: &CellPlan,
    columns: (u32, u32),
    cfg: &ResolvedConfig,
    topo: &CellTopology,
    origin: GridPos,
    edge_left: bool,
) -> (res: Result<CellExtent, LayoutError>)
    requires
        machine.wf(),
        cfg.wf(),
        total_lanes(plan.lane_allocation@) <= u32::MAX,
        cell_fits(*machine, *cfg, *topo, origin, edge_left, columns),
    ensures
        ({
            let slots = slot_list(plan.lane_allocation@, plan.lane_allocation@.len() as int);
            if cell_ok(*machine, recipe@, *cfg, *topo, origin.x as int, edge_left, columns, slots) {
                &&& res matches Ok(ext)
                &&& ext.width == spec_cell_width(machine.tile_width as int, *topo, edge_left)
                &&& ext.height == cell_height(columns, machine.tile_height as int, cfg_period(*cfg, machine.tile_height as int))
                &&& views(final(grid)@) == views(old(grid)@) + cell_placements(
                    *machine,
                    recipe@,
                    *cfg,
                    *topo,
                    origin,
                    edge_left,
                    columns,
                    slots,
                )
            } else {
                &&& res matches Err(e) && cell_refusal(*machine, recipe@, *cfg, *topo, origin.x as int, edge_left, columns, slots, e)
                &&& final(grid)@ == old(grid)@
            }
        }),
{
    let (mw, mh) = machine.effective_size(Direction::North);
    let xl = x_layout(mw, topo, edge_left);
    let ox = origin.x;
    let gutter_a_left = ox + xl.gutter_a_left;
    let col_a_x0 = ox + xl.col_a_x0;
    let gutter_a_right = ox + xl.gutter_a_right;
    let gutter_b_left = ox + xl.gutter_b_left;
    let col_b_x0 = ox + xl.col_b_x0;
    let gutter_b_right = ox + xl.gutter_b_right;
    let (a_ing, a_prod, b_ing, b_prod) = match topo.ingredients_on {
        Side::Spine => (
            Gutter { x: gutter_a_right, dir: 1i32 },
            Gutter { x: gutter_a_left, dir: -1i32 },
            Gutter { x: gutter_b_left, dir: -1i32 },
            Gutter { x: gutter_b_right, dir: 1i32 },
        ),
        Side::Edge => (
            Gutter { x: gutter_a_left, dir: -1i32 },
            Gutter { x: gutter_a_right, dir: 1i32 },
            Gutter { x: gutter_b_right, dir: 1i32 },
            Gutter { x: gutter_b_left, dir: -1i32 },
        ),
    };
    let col_a = Column { x0: col_a_x0, machines: columns.0, ingredient: a_ing, product: a_prod };
    let col_b = Column { x0: col_b_x0, machines: columns.1, ingredient: b_ing, product: b_prod };
    assert((col_a, col_b) == spec_columns(*topo, origin.x as int, edge_left, mw as int, columns));

    // Ingredient slots are the same for both columns: they share the belts.
    let slots = ingredient_slots(plan);
    let pslots = topo.product_belts();
    if col_a.machines > 0 || col_b.machines > 0 {
        check_room(recipe, machine, &slots, pslots)?;
    }
    let facings_a = if col_a.machines > 0 {
        column_facings(cfg, col_a, &slots, pslots)?
    } else {
        (Vec::new(), Vec::new())
    };
    let facings_b = if col_b.machines > 0 {
        column_facings(cfg, col_b, &slots, pslots)?
    } else {
        (Vec::new(), Vec::new())
    };
    let ext = put_cell(grid, machine, recipe, columns, cfg, topo, origin, edge_left, &slots, col_a, col_b, facings_a, facings_b);
    Ok(ext)
}

/// What placing one cell leaves behind: when `cell_ok` holds, the cell's
/// placements appended to `before`, with its extent; otherwise the refusal
/// `cell_refusal` picks, and `before` as it was.
pub open spec fn cell_placed(
    machine: EntityPrototype,
    recipe: Seq<char>,
    plan: CellPlan,
    cfg: ResolvedConfig,
    topo: CellTopology,
    origin: GridPos,
    edge_left: bool,
    before: Seq<Placement>,
    after: Seq<Placement>,
    res: Result<CellExtent, LayoutError>,
) -> bool {
    let slots = slot_list(plan.lane_allocation@, plan.lane_allocation@.len() as int);
    if cell_ok(machine, recipe, cfg, topo, origin.x as int, edge_left, plan.columns, slots) {
        &&& res matches Ok(ext)
        &&& ext.width == spec_cell_width(machine.tile_width as int, topo, edge_left)
        &&& ext.height == cell_height(plan.columns, machine.tile_height as int, cfg_period(cfg, machine.tile_height as int))
        &&& views(after) == views(before) + cell_placements(machine, recipe, cfg, topo, origin, edge_left, plan.columns, slots)
    } else {
        &&& res matches Err(e) && cell_refusal(machine, recipe, cfg, topo, origin.x as int, edge_left, plan.columns, slots, e)
        &&& after == before
    }
}

/// A placed cell is exactly as wide as `cell_width` predicts before anything
/// is placed, and a refused cell leaves the grid as it was.
pub proof fn lemma_cell_width_predicts_placement(
    machine: EntityPrototype,
    recipe: Seq<char>,
    plan: CellPlan,
    cfg: ResolvedConfig,
    topo: CellTopology,
    origin: GridPos,
    edge_left: bool,
    before: Seq<Placement>,
    after: Seq<Placement>,
    res: Result<CellExtent, LayoutError>,
)
    requires
        cell_placed(machine, recipe, plan, cfg, topo, origin, edge_left, before, after, res),
    ensures
        res matches Ok(ext) ==> ext.width == spec_cell_width(
            machine.spec_effective_size(Direction::North).0 as int,
            topo,
            edge_left,
        ),
        res is Err ==> after == before,
{
}

/// Places one cell of `machine`s crafting `recipe`, with its top-left at
/// `origin`: two machine columns, their inserters, and the belts they
/// reach, appended to `grid` in placement order. `edge_left` is false when
/// the cell to the left already placed the shared edge belts. `plan.columns`
/// gives the machines in each column; a column of none places its belts but
/// no machines and no inserters. Refused before anything is placed when a
/// gutter has fewer tiles than the inserters it needs, when a long inserter
/// would reach past a machine too narrow for it, or when an inserter has no
/// facing that serves its slot.
pub fn place_cell(
    grid: &mut Vec<Placement>,
    machine: &EntityPrototype,
    recipe: &str,
    plan: &CellPlan,
    cfg: &ResolvedConfig,
    topo: &CellTopology,
    origin: GridPos,
    edge_left: bool,
) -> (res: Result<CellExtent, LayoutError>)
    requires
        machine.wf(),
        cfg.wf(),
        total_lanes(plan.lane_allocation@) <= u32::MAX,
        cell_fits(*machine, *cfg, *topo, origin, edge_left, plan.columns),
    ensures
        cell_placed(*machine, recipe@, *plan, *cfg, *topo, origin, edge_left, old(grid)@, final(grid)@, res),
{
    place_cell_columns(grid, machine, recipe, plan, plan.columns, cfg, topo, origin, edge_left)
}

} // verus!
