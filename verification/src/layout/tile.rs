//! Cell tiling: one sized step laid out as cells left to right, wrapping
//! into a new band below whenever the next cell would push the current band
//! past the topology's target width.
use vstd::prelude::*;

use crate::layout::cell::{total_lanes, CellPlan, CellTopology};
use crate::layout::config::ResolvedConfig;
use crate::layout::error::LayoutError;
use crate::layout::geometry::{cell_width, spec_cell_width};
use crate::layout::lane::GridPos;
use crate::layout::geometry::lemma_column_height_grows;
use crate::layout::place::{
    cell_height, cfg_period, cell_ok, cell_placements, cell_refusal, column_orients, place_cell_columns, room_checked,
    slot_list, spec_columns, views, PlacedView, Placement,
};
use crate::prototype::EntityPrototype;

verus! {

/// One tile of clear space between bands and between steps.
pub const STEP_GAP: i32 = 1;

/// Tiles a placed step occupies, measured from its origin.
#[derive(Debug, Clone, Copy, PartialEq, Eq)]
pub struct StepExtent {
    pub width: u32,
    pub height: u32,
}

/// Where tiling stands before a cell: the next cell's x and y, whether it
/// places its own left edge belts, the current band's width and height, and
/// the width and height of the bands already finished.
pub type TileState = (int, int, bool, int, int, int, int);

/// The next cell would push a non-empty band past the target width.
pub open spec fn wrap_now(topo: CellTopology, mw: int, s: TileState) -> bool {
    match topo.target_width {
        Some(w) => s.3 > 0 && s.3 + spec_cell_width(mw, topo, s.2) > w,
        None => false,
    }
}

pub open spec fn max_int(a: int, b: int) -> int {
    if a >= b { a } else { b }
}

/// The state after wrapping, when the next cell calls for it: a new band
/// below the current one, a gap between, its own left edge belts.
pub open spec fn after_wrap(topo: CellTopology, mw: int, ox: int, s: TileState) -> TileState {
    if wrap_now(topo, mw, s) {
        (ox, s.1 + s.4 + STEP_GAP, true, 0, 0, max_int(s.5, s.3), s.6 + s.4 + STEP_GAP)
    } else {
        s
    }
}

/// Machines in cell `i`: a full cell, or what is left for the last one.
pub open spec fn cell_machines(machines: int, mpc: int, i: int) -> int {
    if machines - i * mpc < mpc { machines - i * mpc } else { mpc }
}

/// Cell `i`'s two columns, the extra machine to the first.
pub open spec fn cell_columns(machines: int, mpc: int, i: int) -> (u32, u32) {
    let cm = cell_machines(machines, mpc, i);
    (((cm + 1) / 2) as u32, (cm / 2) as u32)
}

/// The tiling state before cell `i`.
pub open spec fn tile_state(
    mw: int,
    mh: int,
    period: int,
    topo: CellTopology,
    origin: GridPos,
    machines: int,
    mpc: int,
    i: nat,
) -> TileState
    decreases i,
{
    if i == 0 {
        (origin.x as int, origin.y as int, true, 0, 0, 0, 0)
    } else {
        let w = after_wrap(topo, mw, origin.x as int, tile_state(mw, mh, period, topo, origin, machines, mpc, (i - 1) as nat));
        let cw = spec_cell_width(mw, topo, w.2);
        let ch = cell_height(cell_columns(machines, mpc, i - 1), mh, period);
        (w.0 + cw, w.1, false, w.3 + cw, max_int(w.4, ch), w.5, w.6)
    }
}

/// Where cell `i` goes, and whether it places its own left edge belts.
pub open spec fn cell_spot(
    mw: int,
    mh: int,
    period: int,
    topo: CellTopology,
    origin: GridPos,
    machines: int,
    mpc: int,
    i: nat,
) -> (GridPos, bool) {
    let w = after_wrap(topo, mw, origin.x as int, tile_state(mw, mh, period, topo, origin, machines, mpc, i));
    (GridPos { x: w.0 as i32, y: w.1 as i32 }, w.2)
}

/// Everything the first `n` cells of a step put down.
pub open spec fn step_placements(
    machine: EntityPrototype,
    recipe: Seq<char>,
    cfg: ResolvedConfig,
    topo: CellTopology,
    origin: GridPos,
    machines: int,
    mpc: int,
    slots: Seq<int>,
    n: nat,
) -> Seq<PlacedView>
    decreases n,
{
    if n == 0 {
        Seq::empty()
    } else {
        let spot = cell_spot(
            machine.tile_width as int,
            machine.tile_height as int,
            cfg_period(cfg, machine.tile_height as int),
            topo,
            origin,
            machines,
            mpc,
            (n - 1) as nat,
        );
        step_placements(machine, recipe, cfg, topo, origin, machines, mpc, slots, (n - 1) as nat) + cell_placements(
            machine,
            recipe,
            cfg,
            topo,
            spot.0,
            spot.1,
            cell_columns(machines, mpc, n - 1),
            slots,
        )
    }
}

/// Machines in the first `n` cells, column by column.
pub open spec fn machines_upto(machines: int, mpc: int, n: int) -> int
    decreases n,
{
    if n <= 0 {
        0
    } else {
        let c = cell_columns(machines, mpc, n - 1);
        machines_upto(machines, mpc, n - 1) + c.0 + c.1
    }
}

proof fn lemma_full_cells(machines: int, mpc: int, n: int)
    requires
        mpc >= 1,
        mpc <= u32::MAX,
        0 <= n,
        n * mpc <= machines,
    ensures
        machines_upto(machines, mpc, n) == n * mpc,
    decreases n,
{
    if n > 0 {
        assert((n - 1) * mpc == n * mpc - mpc) by (nonlinear_arith);
        lemma_full_cells(machines, mpc, n - 1);
        assert(cell_machines(machines, mpc, n - 1) == mpc);
        let c = cell_columns(machines, mpc, n - 1);
        assert(c.0 == (mpc + 1) / 2 && c.1 == mpc / 2);
    } else {
        assert(n * mpc == 0) by (nonlinear_arith)
            requires
                n == 0,
        ;
    }
}

/// The cells of a step hold every machine it needs, no more and no fewer:
/// the full cells `machines_per_cell` each, split across their two columns,
/// and the last what is left.
pub proof fn lemma_cells_hold_every_machine(machines: int, mpc: int, cells: int)
    requires
        1 <= mpc <= u32::MAX,
        1 <= machines <= u32::MAX,
        cells == (machines + mpc - 1) / mpc,
    ensures
        machines_upto(machines, mpc, cells) == machines,
{
    assert((cells - 1) * mpc < machines <= cells * mpc && cells >= 1) by (nonlinear_arith)
        requires
            mpc >= 1,
            machines >= 1,
            cells == (machines + mpc - 1) / mpc,
    ;
    assert((cells - 1) * mpc + mpc == cells * mpc) by (nonlinear_arith);
    lemma_full_cells(machines, mpc, cells - 1);
    let cm = cell_machines(machines, mpc, cells - 1);
    assert(cm == machines - (cells - 1) * mpc);
    let c = cell_columns(machines, mpc, cells - 1);
    assert(c.0 == (cm + 1) / 2 && c.1 == cm / 2);
}

/// The widest a cell of this step gets, and the tallest plus the gap.
pub open spec fn max_cell_width(machine: EntityPrototype, topo: CellTopology) -> int {
    spec_cell_width(machine.tile_width as int, topo, true)
}

pub open spec fn max_band_step(machine: EntityPrototype, cfg: ResolvedConfig, mpc: int) -> int {
    let mh = machine.tile_height as int;
    cell_height((((mpc + 1) / 2) as u32, (mpc / 2) as u32), mh, cfg_period(cfg, mh)) + STEP_GAP
}

/// The coordinates of a whole step fit.
pub open spec fn step_fits(
    machine: EntityPrototype,
    cfg: ResolvedConfig,
    topo: CellTopology,
    origin: GridPos,
    cells: int,
    mpc: int,
) -> bool {
    &&& origin.x + cells * max_cell_width(machine, topo) <= i32::MAX
    &&& origin.y + cells * max_band_step(machine, cfg, mpc) <= i32::MAX
    &&& cells * max_cell_width(machine, topo) <= u32::MAX
    &&& cells * max_band_step(machine, cfg, mpc) <= u32::MAX
}

proof fn lemma_columns_bounded(machines: int, mpc: int, i: int, mh: int, period: int)
    requires
        mpc >= 1,
        0 <= i,
        i * mpc <= machines,
        mh >= 1,
        period >= 1,
        mpc <= u32::MAX,
    ensures
        0 <= cell_machines(machines, mpc, i) <= mpc,
        cell_columns(machines, mpc, i).0 <= (mpc + 1) / 2,
        cell_columns(machines, mpc, i).1 <= mpc / 2,
        cell_height(cell_columns(machines, mpc, i), mh, period) <= cell_height(
            (((mpc + 1) / 2) as u32, (mpc / 2) as u32),
            mh,
            period,
        ),
{
    let c = cell_columns(machines, mpc, i);
    let f = (((mpc + 1) / 2) as u32, (mpc / 2) as u32);
    lemma_column_height_grows(c.0 as int, f.0 as int, mh, period);
    lemma_column_height_grows(c.1 as int, f.0 as int, mh, period);
    lemma_column_height_grows(f.1 as int, f.0 as int, mh, period);
}

/// A later cell passes exactly when the first does: every cell shares the
/// first's slots and gutters, and has machines in a column only where the
/// first has.
proof fn lemma_cells_alike(
    machine: EntityPrototype,
    recipe: Seq<char>,
    cfg: ResolvedConfig,
    topo: CellTopology,
    ox0: int,
    ox: int,
    edge_left: bool,
    machines: int,
    mpc: int,
    i: int,
    slots: Seq<int>,
)
    requires
        machines >= 1,
        mpc >= 1,
        0 <= i,
        i * mpc <= machines,
        mpc <= u32::MAX,
        cell_ok(machine, recipe, cfg, topo, ox0, true, cell_columns(machines, mpc, 0), slots),
    ensures
        cell_ok(machine, recipe, cfg, topo, ox, edge_left, cell_columns(machines, mpc, i), slots),
{
    let c0 = cell_columns(machines, mpc, 0);
    let ci = cell_columns(machines, mpc, i);
    let pslots = topo.spec_product_belts() as int;
    let cols0 = spec_columns(topo, ox0, true, machine.tile_width as int, c0);
    let colsi = spec_columns(topo, ox, edge_left, machine.tile_width as int, ci);
    assert(c0.0 >= 1);
    if ci.1 > 0 {
        assert(c0.1 >= 1);
    }
    assert(colsi.0.ingredient.dir == cols0.0.ingredient.dir && colsi.0.product.dir == cols0.0.product.dir);
    assert(colsi.1.ingredient.dir == cols0.1.ingredient.dir && colsi.1.product.dir == cols0.1.product.dir);
    if colsi.0.machines > 0 {
        assert(column_orients(cfg, cols0.0, slots, pslots));
    }
    if colsi.1.machines > 0 {
        assert(column_orients(cfg, cols0.1, slots, pslots));
    }
}

/// Starts a new band when the next cell calls for it.
fn wrap_if_needed(
    machine: &EntityPrototype,
    topo: &CellTopology,
    origin: GridPos,
    st: (i32, i32, bool, u32, u32, u32, u32),
    Ghost(i): Ghost<int>,
    Ghost(maxw): Ghost<int>,
    Ghost(maxh): Ghost<int>,
) -> (res: (i32, i32, bool, u32, u32, u32, u32))
    requires
        machine.wf(),
        0 <= i,
        maxw == max_cell_width(*machine, *topo),
        maxh >= 0,
        st.0 == origin.x + st.3,
        st.1 == origin.y + st.6,
        st.3 <= i * maxw,
        st.5 <= i * maxw,
        st.4 <= maxh,
        st.6 + st.4 <= i * (maxh + STEP_GAP),
        origin.y + (i + 1) * (maxh + STEP_GAP) <= i32::MAX,
        (i + 1) * (maxh + STEP_GAP) <= u32::MAX,
    ensures
        (res.0 as int, res.1 as int, res.2, res.3 as int, res.4 as int, res.5 as int, res.6 as int) == after_wrap(
            *topo,
            machine.tile_width as int,
            origin.x as int,
            (st.0 as int, st.1 as int, st.2, st.3 as int, st.4 as int, st.5 as int, st.6 as int),
        ),
        res.0 == origin.x + res.3,
        res.1 == origin.y + res.6,
        res.3 <= i * maxw,
        res.5 <= i * maxw,
        res.4 <= maxh,
        res.6 + res.4 <= i * (maxh + STEP_GAP) + STEP_GAP,
{
    let (x, y, edge_left, band_width, band_height, total_width, total_height) = st;
    proof {
        assert((i + 1) * (maxh + STEP_GAP) == i * (maxh + STEP_GAP) + (maxh + STEP_GAP)) by (nonlinear_arith);
    }
    match topo.target_width {
        Some(w) => {
            let predicted = cell_width(machine, topo, edge_left);
            if band_width > 0 && band_width as u64 + predicted as u64 > w as u64 {
                let tw = if total_width >= band_width { total_width } else { band_width };
                return (origin.x, y + band_height as i32 + STEP_GAP, true, 0, 0, tw, total_height + band_height + STEP_GAP as u32);
            }
        },
        None => {},
    }
    st
}

/// What holds of the tiling state `st` and of what has been put down before
/// cell `i`.
pub open spec fn tiling_inv(
    machine: EntityPrototype,
    recipe: Seq<char>,
    cfg: ResolvedConfig,
    topo: CellTopology,
    origin: GridPos,
    machines: int,
    mpc: int,
    slots: Seq<int>,
    cells: int,
    st: (i32, i32, bool, u32, u32, u32, u32),
    i: int,
    placed: Seq<PlacedView>,
) -> bool {
    let maxw = max_cell_width(machine, topo);
    let maxh = max_band_step(machine, cfg, mpc) - STEP_GAP;
    &&& 0 <= i <= cells
    &&& mpc >= 1
    &&& machines >= 1
    &&& (st.0 as int, st.1 as int, st.2, st.3 as int, st.4 as int, st.5 as int, st.6 as int) == tile_state(
        machine.tile_width as int,
        machine.tile_height as int,
        cfg_period(cfg, machine.tile_height as int),
        topo,
        origin,
        machines,
        mpc,
        i as nat,
    )
    &&& st.0 == origin.x + st.3
    &&& st.1 == origin.y + st.6
    &&& st.3 <= i * maxw
    &&& st.5 <= i * maxw
    &&& st.4 <= maxh
    &&& st.6 + st.4 <= i * (maxh + STEP_GAP)
    &&& (i > 0 ==> !st.2)
    &&& (i == 0 ==> st.2 && st.3 == 0)
    &&& (i > 0 ==> cell_ok(machine, recipe, cfg, topo, origin.x as int, true, cell_columns(machines, mpc, 0), slots))
    &&& placed == step_placements(machine, recipe, cfg, topo, origin, machines, mpc, slots, i as nat)
}

/// Places cell `i` of a step and advances the tiling state past it.
#[verifier::rlimit(60)]
fn tile_cell(
    grid: &mut Vec<Placement>,
    machine: &EntityPrototype,
    recipe: &str,
    sized: &CellPlan,
    cfg: &ResolvedConfig,
    topo: &CellTopology,
    origin: GridPos,
    machines: u32,
    st: (i32, i32, bool, u32, u32, u32, u32),
    i: u32,
    Ghost(start): Ghost<Seq<PlacedView>>,
) -> (res: Result<(i32, i32, bool, u32, u32, u32, u32), LayoutError>)
    requires
        machine.wf(),
        cfg.wf(),
        total_lanes(sized.lane_allocation@) <= u32::MAX,
        i < sized.cells,
        (sized.cells - 1) * sized.machines_per_cell <= machines,
        step_fits(*machine, *cfg, *topo, origin, sized.cells as int, sized.machines_per_cell as int),
        views(old(grid)@) == start + step_placements(
            *machine,
            recipe@,
            *cfg,
            *topo,
            origin,
            machines as int,
            sized.machines_per_cell as int,
            slot_list(sized.lane_allocation@, sized.lane_allocation@.len() as int),
            i as nat,
        ),
        tiling_inv(
            *machine,
            recipe@,
            *cfg,
            *topo,
            origin,
            machines as int,
            sized.machines_per_cell as int,
            slot_list(sized.lane_allocation@, sized.lane_allocation@.len() as int),
            sized.cells as int,
            st,
            i as int,
            views(old(grid)@).subrange(start.len() as int, views(old(grid)@).len() as int),
        ),
        views(old(grid)@).len() >= start.len(),
    ensures
        match res {
            Ok(next) => views(final(grid)@) == start + step_placements(
                *machine,
                recipe@,
                *cfg,
                *topo,
                origin,
                machines as int,
                sized.machines_per_cell as int,
                slot_list(sized.lane_allocation@, sized.lane_allocation@.len() as int),
                (i + 1) as nat,
            ) && tiling_inv(
                *machine,
                recipe@,
                *cfg,
                *topo,
                origin,
                machines as int,
                sized.machines_per_cell as int,
                slot_list(sized.lane_allocation@, sized.lane_allocation@.len() as int),
                sized.cells as int,
                next,
                i + 1,
                views(final(grid)@).subrange(start.len() as int, views(final(grid)@).len() as int),
            ),
            Err(e) => i == 0 && cell_refusal(
                *machine,
                recipe@,
                *cfg,
                *topo,
                origin.x as int,
                true,
                cell_columns(machines as int, sized.machines_per_cell as int, 0),
                slot_list(sized.lane_allocation@, sized.lane_allocation@.len() as int),
                e,
            ) && !cell_ok(
                *machine,
                recipe@,
                *cfg,
                *topo,
                origin.x as int,
                true,
                cell_columns(machines as int, sized.machines_per_cell as int, 0),
                slot_list(sized.lane_allocation@, sized.lane_allocation@.len() as int),
            ) && final(grid)@ == old(grid)@,
        },
{
    let mpc = sized.machines_per_cell;
    let ghost slots = slot_list(sized.lane_allocation@, sized.lane_allocation@.len() as int);
    let ghost mw = machine.tile_width as int;
    let ghost mh = machine.tile_height as int;
    let ghost maxw = max_cell_width(*machine, *topo);
    let ghost maxh = max_band_step(*machine, *cfg, mpc as int) - STEP_GAP;
    proof {
        assert(i * maxw + maxw <= sized.cells * maxw) by (nonlinear_arith)
            requires
                i < sized.cells,
                maxw >= 0,
        ;
        assert(i * (maxh + STEP_GAP) + (maxh + STEP_GAP) <= sized.cells * (maxh + STEP_GAP)) by (nonlinear_arith)
            requires
                i < sized.cells,
                maxh + STEP_GAP >= 0,
        ;
        assert(i * mpc <= (sized.cells - 1) * mpc) by (nonlinear_arith)
            requires
                i <= sized.cells - 1,
                mpc >= 1,
        ;
        assert((i + 1) * (maxh + STEP_GAP) == i * (maxh + STEP_GAP) + (maxh + STEP_GAP)) by (nonlinear_arith);
        assert((i + 1) * maxw == i * maxw + maxw) by (nonlinear_arith);
        assert(max_band_step(*machine, *cfg, mpc as int) == maxh + STEP_GAP);
    }
    let (x, y, edge_left, band_width, band_height, total_width, total_height) = wrap_if_needed(
        machine,
        topo,
        origin,
        st,
        Ghost(i as int),
        Ghost(maxw),
        Ghost(maxh),
    );
    let cell_machines: u32 = if machines - i * mpc < mpc { machines - i * mpc } else { mpc };
    let columns = (cell_machines / 2 + cell_machines % 2, cell_machines / 2);
    proof {
        assert(columns == cell_columns(machines as int, mpc as int, i as int));
        lemma_columns_bounded(machines as int, mpc as int, i as int, mh, cfg_period(*cfg, mh));
        if i > 0 {
            lemma_cells_alike(*machine, recipe@, *cfg, *topo, origin.x as int, x as int, edge_left, machines as int, mpc as int, i as int, slots);
        }
        assert(spec_cell_width(mw, *topo, edge_left) <= maxw);
    }
    let ext = match place_cell_columns(grid, machine, recipe, sized, columns, cfg, topo, GridPos { x, y }, edge_left) {
        Ok(e) => e,
        Err(e) => {
            return Err(e);
        },
    };
    let nx = x + ext.width as i32;
    let nbw = band_width + ext.width;
    let nbh = if band_height >= ext.height { band_height } else { ext.height };
    proof {
        assert(views(grid@) =~= start + step_placements(*machine, recipe@, *cfg, *topo, origin, machines as int, mpc as int, slots, (i + 1) as nat));
        assert(views(grid@).subrange(start.len() as int, views(grid@).len() as int) =~= step_placements(
            *machine,
            recipe@,
            *cfg,
            *topo,
            origin,
            machines as int,
            mpc as int,
            slots,
            (i + 1) as nat,
        ));
    }
    Ok((nx, y, false, nbw, nbh, total_width, total_height))
}

/// Places one whole step of `machines_needed` machines crafting `recipe`,
/// sized as `sized`: the machines split across cells, each cell's split
/// across its two columns, the cells tiled from `origin` left to right,
/// wrapping into a new band below whenever the next cell would push the
/// current band past `topo.target_width`. A cell wider than the target still
/// gets a band to itself. Returns the extent and the stream or streams that
/// bound the sizing.
pub fn place_step(
    grid: &mut Vec<Placement>,
    machine: &EntityPrototype,
    recipe: &str,
    machines_needed: u32,
    sized: &CellPlan,
    cfg: &ResolvedConfig,
    topo: &CellTopology,
    origin: GridPos,
) -> (res: Result<(StepExtent, String), LayoutError>)
    requires
        machine.wf(),
        cfg.wf(),
        total_lanes(sized.lane_allocation@) <= u32::MAX,
        sized.machines_per_cell >= 1,
        sized.cells == 0 || (sized.cells - 1) * sized.machines_per_cell <= (if machines_needed >= 1 { machines_needed as int } else { 1 }),
        step_fits(*machine, *cfg, *topo, origin, sized.cells as int, sized.machines_per_cell as int),
    ensures
        ({
            let machines = if machines_needed >= 1 { machines_needed as int } else { 1 };
            let mpc = sized.machines_per_cell as int;
            let slots = slot_list(sized.lane_allocation@, sized.lane_allocation@.len() as int);
            let last = tile_state(
                machine.tile_width as int,
                machine.tile_height as int,
                cfg_period(*cfg, machine.tile_height as int),
                *topo,
                origin,
                machines,
                mpc,
                sized.cells as nat,
            );
            if sized.cells == 0 || cell_ok(*machine, recipe@, *cfg, *topo, origin.x as int, true, cell_columns(machines, mpc, 0), slots) {
                &&& res matches Ok((ext, bound))
                &&& ext.width == max_int(last.5, last.3)
                &&& ext.height == last.6 + last.4
                &&& bound@ == sized.bound_by@
                &&& views(final(grid)@) == views(old(grid)@) + step_placements(
                    *machine,
                    recipe@,
                    *cfg,
                    *topo,
                    origin,
                    machines,
                    mpc,
                    slots,
                    sized.cells as nat,
                )
            } else {
                &&& res matches Err(e) && cell_refusal(*machine, recipe@, *cfg, *topo, origin.x as int, true, cell_columns(machines, mpc, 0), slots, e)
                &&& final(grid)@ == old(grid)@
            }
        }),
{
    let machines: u32 = if machines_needed >= 1 { machines_needed } else { 1 };
    let ghost start = views(grid@);
    let mut st: (i32, i32, bool, u32, u32, u32, u32) = (origin.x, origin.y, true, 0, 0, 0, 0);
    let mut i: u32 = 0;
    proof {
        assert(views(grid@).subrange(start.len() as int, views(grid@).len() as int) =~= Seq::<PlacedView>::empty());
    }
    if sized.cells > 0 {
        st = match tile_cell(grid, machine, recipe, sized, cfg, topo, origin, machines, st, 0, Ghost(start)) {
            Ok(next) => next,
            Err(e) => {
                return Err(e);
            },
        };
        i = 1;
    }
    while i < sized.cells
        invariant
            i >= 1 || sized.cells == 0,
            machine.wf(),
            cfg.wf(),
            total_lanes(sized.lane_allocation@) <= u32::MAX,
            machines == (if machines_needed >= 1 { machines_needed as int } else { 1 }),
            sized.machines_per_cell >= 1,
            sized.cells == 0 || (sized.cells - 1) * sized.machines_per_cell <= machines,
            step_fits(*machine, *cfg, *topo, origin, sized.cells as int, sized.machines_per_cell as int),
            views(grid@).len() >= start.len(),
            views(grid@) == start + step_placements(
                *machine,
                recipe@,
                *cfg,
                *topo,
                origin,
                machines as int,
                sized.machines_per_cell as int,
                slot_list(sized.lane_allocation@, sized.lane_allocation@.len() as int),
                i as nat,
            ),
            tiling_inv(
                *machine,
                recipe@,
                *cfg,
                *topo,
                origin,
                machines as int,
                sized.machines_per_cell as int,
                slot_list(sized.lane_allocation@, sized.lane_allocation@.len() as int),
                sized.cells as int,
                st,
                i as int,
                views(grid@).subrange(start.len() as int, views(grid@).len() as int),
            ),
        decreases sized.cells - i,
    {
        st = match tile_cell(grid, machine, recipe, sized, cfg, topo, origin, machines, st, i, Ghost(start)) {
            Ok(next) => next,
            Err(e) => {
                assert(false);
                return Err(e);
            },
        };
        i = i + 1;
    }
    let (_, _, _, band_width, band_height, total_width, total_height) = st;
    let width = if total_width >= band_width { total_width } else { band_width };
    proof {
        let maxh = max_band_step(*machine, *cfg, sized.machines_per_cell as int) - STEP_GAP;
        assert(total_height + band_height <= sized.cells * (maxh + STEP_GAP));
    }
    Ok((StepExtent { width, height: total_height + band_height }, sized.bound_by.clone()))
}

/// Before every cell the current band's width is how far the next cell's x
/// lies past the origin's, the band's height is not negative, and only the
/// first cell starts out owning its left edge belts.
proof fn lemma_tile_state_shape(
    mw: int,
    mh: int,
    period: int,
    topo: CellTopology,
    origin: GridPos,
    machines: int,
    mpc: int,
    i: nat,
)
    requires
        mw >= 0,
    ensures
        tile_state(mw, mh, period, topo, origin, machines, mpc, i).3 == tile_state(mw, mh, period, topo, origin, machines, mpc, i).0
            - origin.x,
        tile_state(mw, mh, period, topo, origin, machines, mpc, i).3 >= 0,
        tile_state(mw, mh, period, topo, origin, machines, mpc, i).4 >= 0,
        i > 0 ==> !tile_state(mw, mh, period, topo, origin, machines, mpc, i).2,
    decreases i,
{
    if i > 0 {
        lemma_tile_state_shape(mw, mh, period, topo, origin, machines, mpc, (i - 1) as nat);
    }
}

/// Cells fill a band left to right while the band stays within the target
/// width: the next cell stays in cell `i`'s band, just right of it, exactly
/// when the band with it added is no wider than `topo.target_width` (always,
/// with no target); otherwise it starts a new band below, at the origin's
/// column, owning its left edge belts. The first cell sits at the origin.
pub proof fn lemma_bands_wrap_only_past_the_target(
    mw: int,
    mh: int,
    period: int,
    topo: CellTopology,
    origin: GridPos,
    machines: int,
    mpc: int,
    i: nat,
)
    requires
        mw >= 1,
    ensures
        ({
            let first = after_wrap(topo, mw, origin.x as int, tile_state(mw, mh, period, topo, origin, machines, mpc, 0));
            first.0 == origin.x && first.1 == origin.y && first.2
        }),
        ({
            let here = after_wrap(topo, mw, origin.x as int, tile_state(mw, mh, period, topo, origin, machines, mpc, i));
            let next = after_wrap(topo, mw, origin.x as int, tile_state(mw, mh, period, topo, origin, machines, mpc, i + 1));
            let width = spec_cell_width(mw, topo, here.2);
            let band = here.0 + width - origin.x;
            let stays = match topo.target_width {
                Some(w) => band + spec_cell_width(mw, topo, false) <= w,
                None => true,
            };
            &&& stays ==> next.0 == here.0 + width && next.1 == here.1 && !next.2
            &&& !stays ==> next.0 == origin.x && next.1 > here.1 && next.2
        }),
{
    lemma_tile_state_shape(mw, mh, period, topo, origin, machines, mpc, i);
    lemma_tile_state_shape(mw, mh, period, topo, origin, machines, mpc, i + 1);
}

} // verus!
