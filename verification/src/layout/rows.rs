//! The row layout of a step: its machines side by side in sub-rows, each
//! sub-row a band of an input belt row, input inserters, the machines,
//! output inserters and an output belt row, the bands stacked downward a
//! gap apart. A step needs more than one sub-row exactly when its streams
//! need more belts than one row's inserters can reach.
use vstd::prelude::*;

use crate::layout::config::ResolvedConfig;
use crate::layout::error::LayoutError;
use crate::layout::lane::GridPos;
use crate::layout::lanes::{carried, carried_streams, lane_needs, pack_carried, packed};
use crate::layout::orient::{inserter_direction, spec_inserter_direction};
use crate::layout::place::{entity, entity_at, placed_view, views, PlacedView, Placement};
use crate::layout::sizing::{find_fluid, first_fluid, is_fluid_of};
use crate::layout::tile::{StepExtent, STEP_GAP};
use crate::prototype::{Direction, EntityPrototype};
use crate::recipe::Recipe;
use crate::text::texts;

verus! {

/// The item names of `streams`.
pub open spec fn stream_names(streams: Seq<(String, u32)>) -> Seq<Seq<char>> {
    streams.map_values(|p: (String, u32)| p.0@)
}

/// The names of the streams that need at least one lane, in order: the
/// ones a step actually carries.
pub open spec fn carried_names(streams: Seq<(String, u32)>) -> Seq<Seq<char>> {
    carried(lane_needs(streams)).map_values(|p: (Seq<char>, nat)| p.0)
}

/// Stream `i` is the first of `names` that `items` lists as a fluid.
pub open spec fn first_fluid_named(names: Seq<Seq<char>>, items: Seq<crate::recipe::RecipeItem>, i: int) -> bool {
    &&& 0 <= i < names.len()
    &&& is_fluid_of(items, names[i])
    &&& forall|j: int| 0 <= j < i ==> !is_fluid_of(items, #[trigger] names[j])
}

/// Some stream of `names` is a fluid of `items`.
pub open spec fn has_fluid(names: Seq<Seq<char>>, items: Seq<crate::recipe::RecipeItem>) -> bool {
    exists|i: int| 0 <= i < names.len() && is_fluid_of(items, #[trigger] names[i])
}

/// Machines in sub-row `s` of `rows`: an even split, the first
/// `machines % rows` sub-rows one extra.
pub open spec fn row_machines(machines: int, rows: int, s: int) -> int {
    machines / rows + if s < machines % rows { 1int } else { 0int }
}

/// Sub-rows of a step: one per belt of its wider side, at least one, at
/// most one per machine.
pub open spec fn sub_rows(machines: int, in_belts: int, out_belts: int) -> int {
    let b = if in_belts >= out_belts { in_belts } else { out_belts };
    let b = if b >= 1 { b } else { 1 };
    if b <= machines { b } else { machines }
}

/// A row of `width` belts from column `x0` on row `y`, facing East.
pub open spec fn belt_row(belt: EntityPrototype, x0: int, y: int, width: int) -> Seq<PlacedView> {
    Seq::new(width as nat, |dx: int| entity_at(belt, x0 + dx, y, Direction::East, None))
}

/// One machine with its left edge at `left` in the band starting at row
/// `top`: the machine, its input inserters above it and its output
/// inserters below it, one per stream, all facing `d`.
pub open spec fn row_machine(
    machine: EntityPrototype,
    recipe: Seq<char>,
    inserter: EntityPrototype,
    d: Direction,
    left: int,
    top: int,
    n_in: int,
    n_out: int,
) -> Seq<PlacedView> {
    let mh = machine.tile_height as int;
    seq![entity_at(machine, left, top + 2, Direction::North, Some(recipe))] + Seq::new(
        n_in as nat,
        |k: int| entity_at(inserter, left + k, top + 1, d, None),
    ) + Seq::new(n_out as nat, |k: int| entity_at(inserter, left + k, top + 2 + mh, d, None))
}

/// The first `n` machines of a band starting at row `top`, side by side
/// from column `x0`.
pub open spec fn row_machines_upto(
    machine: EntityPrototype,
    recipe: Seq<char>,
    inserter: EntityPrototype,
    d: Direction,
    x0: int,
    top: int,
    n_in: int,
    n_out: int,
    n: int,
) -> Seq<PlacedView>
    decreases n,
{
    if n <= 0 {
        Seq::empty()
    } else {
        row_machines_upto(machine, recipe, inserter, d, x0, top, n_in, n_out, n - 1) + row_machine(
            machine,
            recipe,
            inserter,
            d,
            x0 + (n - 1) * machine.tile_width,
            top,
            n_in,
            n_out,
        )
    }
}

/// The row where sub-row `s` starts.
pub open spec fn band_top(oy: int, mh: int, s: int) -> int {
    oy + s * (mh + 4 + STEP_GAP)
}

/// Everything sub-row `s` puts down: its input belt row when the step has
/// inputs, its output belt row when it has outputs, then its machines.
pub open spec fn sub_row(
    machine: EntityPrototype,
    recipe: Seq<char>,
    cfg: ResolvedConfig,
    d: Direction,
    origin: GridPos,
    n_in: int,
    n_out: int,
    width: int,
    count: int,
    s: int,
) -> Seq<PlacedView> {
    let mh = machine.tile_height as int;
    let top = band_top(origin.y as int, mh, s);
    (if n_in > 0 { belt_row(*cfg.belt, origin.x as int, top, width) } else { Seq::empty() }) + (if n_out > 0 {
        belt_row(*cfg.belt, origin.x as int, top + 3 + mh, width)
    } else {
        Seq::empty()
    }) + row_machines_upto(machine, recipe, *cfg.inserter, d, origin.x as int, top, n_in, n_out, count)
}

/// The first `n` sub-rows of a step of `machines` machines in `rows` sub-rows.
pub open spec fn rows_upto(
    machine: EntityPrototype,
    recipe: Seq<char>,
    cfg: ResolvedConfig,
    d: Direction,
    origin: GridPos,
    n_in: int,
    n_out: int,
    width: int,
    machines: int,
    rows: int,
    n: int,
) -> Seq<PlacedView>
    decreases n,
{
    if n <= 0 {
        Seq::empty()
    } else {
        rows_upto(machine, recipe, cfg, d, origin, n_in, n_out, width, machines, rows, n - 1) + sub_row(
            machine,
            recipe,
            cfg,
            d,
            origin,
            n_in,
            n_out,
            width,
            row_machines(machines, rows, n - 1),
            n - 1,
        )
    }
}

/// A row of `width` belts from column `x0` on row `y`, facing East.
fn place_belt_row(grid: &mut Vec<Placement>, belt: &EntityPrototype, x0: i32, y: i32, width: u32)
    requires
        x0 + width <= i32::MAX + 1,
    ensures
        views(final(grid)@) == views(old(grid)@) + belt_row(*belt, x0 as int, y as int, width as int),
{
    let ghost start = views(grid@);
    let mut dx: u32 = 0;
    while dx < width
        invariant
            dx <= width,
            x0 + width <= i32::MAX + 1,
            views(grid@) == start + belt_row(*belt, x0 as int, y as int, width as int).subrange(0, dx as int),
        decreases width - dx,
    {
        let ghost before = grid@;
        let x: i64 = x0 as i64 + dx as i64;
        let p = entity(belt, x as i32, y, Direction::East, None);
        assert(placed_view(p) == belt_row(*belt, x0 as int, y as int, width as int)[dx as int]);
        grid.push(p);
        proof {
            assert(views(grid@) =~= views(before).push(placed_view(p)));
            assert(views(grid@) =~= start + belt_row(*belt, x0 as int, y as int, width as int).subrange(0, dx + 1));
        }
        dx = dx + 1;
    }
    proof {
        assert(belt_row(*belt, x0 as int, y as int, width as int).subrange(0, width as int) =~= belt_row(
            *belt,
            x0 as int,
            y as int,
            width as int,
        ));
    }
}

/// One machine and its inserters; see `row_machine`.
fn place_row_machine(
    grid: &mut Vec<Placement>,
    machine: &EntityPrototype,
    recipe: &str,
    inserter: &EntityPrototype,
    d: Direction,
    left: i32,
    top: i32,
    n_in: usize,
    n_out: usize,
)
    requires
        machine.wf(),
        n_in <= machine.tile_width,
        n_out <= machine.tile_width,
        left + machine.tile_width <= i32::MAX,
        top + 2 + machine.tile_height <= i32::MAX,
        top >= i32::MIN,
    ensures
        views(final(grid)@) == views(old(grid)@) + row_machine(
            *machine,
            recipe@,
            *inserter,
            d,
            left as int,
            top as int,
            n_in as int,
            n_out as int,
        ),
{
    let ghost start = views(grid@);
    let ghost group = row_machine(*machine, recipe@, *inserter, d, left as int, top as int, n_in as int, n_out as int);
    let mh = machine.tile_height;
    grid.push(entity(machine, left, top + 2, Direction::North, Some(recipe)));
    proof {
        assert(views(grid@) =~= start + group.subrange(0, 1));
    }
    let mut k: usize = 0;
    while k < n_in
        invariant
            k <= n_in,
            machine.wf(),
            n_in <= machine.tile_width,
            left + machine.tile_width <= i32::MAX,
            top + 2 + mh <= i32::MAX,
            top >= i32::MIN,
            group == row_machine(*machine, recipe@, *inserter, d, left as int, top as int, n_in as int, n_out as int),
            views(grid@) == start + group.subrange(0, 1 + k),
        decreases n_in - k,
    {
        let ghost before = grid@;
        let x: i64 = left as i64 + k as i64;
        let p = entity(inserter, x as i32, top + 1, d, None);
        assert(placed_view(p) == group[1 + k]);
        grid.push(p);
        proof {
            assert(views(grid@) =~= views(before).push(placed_view(p)));
            assert(views(grid@) =~= start + group.subrange(0, 1 + k + 1));
        }
        k = k + 1;
    }
    let mut k: usize = 0;
    while k < n_out
        invariant
            k <= n_out,
            machine.wf(),
            n_out <= machine.tile_width,
            left + machine.tile_width <= i32::MAX,
            top + 2 + mh <= i32::MAX,
            top >= i32::MIN,
            mh == machine.tile_height,
            group == row_machine(*machine, recipe@, *inserter, d, left as int, top as int, n_in as int, n_out as int),
            views(grid@) == start + group.subrange(0, 1 + n_in + k),
        decreases n_out - k,
    {
        let ghost before = grid@;
        let x: i64 = left as i64 + k as i64;
        let y: i64 = top as i64 + 2 + mh as i64;
        let p = entity(inserter, x as i32, y as i32, d, None);
        assert(placed_view(p) == group[1 + n_in + k]);
        grid.push(p);
        proof {
            assert(views(grid@) =~= views(before).push(placed_view(p)));
            assert(views(grid@) =~= start + group.subrange(0, 1 + n_in + k + 1));
        }
        k = k + 1;
    }
    proof {
        assert(group.subrange(0, group.len() as int) =~= group);
    }
}

/// How a row-layout step is refused, in this order: a fluid among its
/// input streams, then among its output streams, since a fluid cannot ride
/// a belt; more than two inputs or outputs, since one belt carries two
/// lanes; more inputs or outputs than the machine is wide, since each
/// stream takes its own inserter along the machine's edge; an inserter
/// that cannot face from the belt row into the machine.
pub open spec fn rows_refusal(
    recipe: Recipe,
    machine: EntityPrototype,
    inserter: EntityPrototype,
    ins: Seq<Seq<char>>,
    outs: Seq<Seq<char>>,
) -> Option<spec_fn(LayoutError) -> bool> {
    let mw = machine.tile_width as int;
    if has_fluid(ins, recipe.ingredients@) {
        Some(
            |e: LayoutError|
                e matches LayoutError::FluidOnBelt { recipe: r, item } && r@ == recipe.name@ && exists|i: int|
                    first_fluid_named(ins, recipe.ingredients@, i) && item@ == ins[i],
        )
    } else if has_fluid(outs, recipe.results@) {
        Some(
            |e: LayoutError|
                e matches LayoutError::FluidOnBelt { recipe: r, item } && r@ == recipe.name@ && exists|i: int|
                    first_fluid_named(outs, recipe.results@, i) && item@ == outs[i],
        )
    } else if ins.len() > 2 {
        Some(
            |e: LayoutError|
                e matches LayoutError::TooManyIngredientsForLanes { recipe: r, ingredients, lanes } && r@ == recipe.name@
                    && texts(ingredients@) == ins && lanes == 2,
        )
    } else if outs.len() > 2 {
        Some(
            |e: LayoutError|
                e matches LayoutError::MultipleProducts { recipe: r, products } && r@ == recipe.name@ && texts(products@)
                    == outs,
        )
    } else if ins.len() > mw {
        Some(
            |e: LayoutError|
                e matches LayoutError::NoRoomForInserters { recipe: r, machine: m, needed, edge_tiles } && r@
                    == recipe.name@ && m@ == machine.name@ && needed == ins.len() && edge_tiles == mw,
        )
    } else if outs.len() > mw {
        Some(
            |e: LayoutError|
                e matches LayoutError::NoRoomForInserters { recipe: r, machine: m, needed, edge_tiles } && r@
                    == recipe.name@ && m@ == machine.name@ && needed == outs.len() && edge_tiles == mw,
        )
    } else if spec_inserter_direction(inserter, (0, -1), (0, 1)) is None {
        Some(|e: LayoutError| e matches LayoutError::InserterUnknown(n) && n@ == inserter.name@)
    } else {
        None
    }
}

/// The item names of `streams`, in order.
fn names_of_streams(streams: &Vec<(String, u32)>) -> (res: Vec<String>)
    ensures
        texts(res@) == stream_names(streams@),
{
    let mut out: Vec<String> = Vec::new();
    let mut i: usize = 0;
    while i < streams.len()
        invariant
            i <= streams@.len(),
            texts(out@) == stream_names(streams@.subrange(0, i as int)),
        decreases streams.len() - i,
    {
        let ghost before = out@;
        out.push(streams[i].0.clone());
        proof {
            assert(texts(out@) =~= texts(before).push(streams@[i as int].0@));
            assert(stream_names(streams@.subrange(0, i + 1)) =~= stream_names(streams@.subrange(0, i as int)).push(
                streams@[i as int].0@,
            ));
        }
        i = i + 1;
    }
    assert(streams@.subrange(0, streams@.len() as int) =~= streams@);
    out
}

/// The first fluid stream of `names`, read as the one `find_fluid` found.
fn fluid_among(names: &Vec<String>, items: &Vec<crate::recipe::RecipeItem>, Ghost(want): Ghost<Seq<Seq<char>>>) -> (res: Option<usize>)
    requires
        texts(names@) == want,
    ensures
        match res {
            Some(i) => first_fluid_named(want, items@, i as int) && has_fluid(want, items@),
            None => !has_fluid(want, items@),
        },
{
    let found = find_fluid(names, items);
    proof {
        assert forall|j: int| 0 <= j < names@.len() implies #[trigger] want[j] == names@[j]@ by {
            assert(texts(names@)[j] == names@[j]@);
        }
        match found {
            Some(i) => {
                assert(is_fluid_of(items@, want[i as int]));
            },
            None => {
                if has_fluid(want, items@) {
                    let i = choose|i: int| 0 <= i < want.len() && is_fluid_of(items@, #[trigger] want[i]);
                    assert(!is_fluid_of(items@, names@[i]@));
                }
            },
        }
    }
    found
}

/// Machines in each sub-row never outnumber the first sub-row's, which
/// never outnumbers the step's.
proof fn lemma_row_counts(machines: int, rows: int, s: int)
    requires
        1 <= rows <= machines,
        0 <= s < rows,
    ensures
        1 <= row_machines(machines, rows, 0) <= machines,
        0 <= row_machines(machines, rows, s) <= row_machines(machines, rows, 0),
{
    assert(machines == rows * (machines / rows) + machines % rows && 0 <= machines % rows < rows) by (nonlinear_arith)
        requires
            rows >= 1,
            machines >= 0,
    ;
    assert(machines / rows >= 1) by (nonlinear_arith)
        requires
            1 <= rows <= machines,
    ;
    assert(machines / rows + 1 <= machines || machines % rows == 0) by (nonlinear_arith)
        requires
            machines == rows * (machines / rows) + machines % rows,
            0 <= machines % rows < rows,
            rows >= 1,
            machines / rows >= 1,
    ;
}

/// Places one step in the row layout: `machines_needed` machines (at least
/// one) of `machine` crafting `recipe`, fed by `inputs` and drained by
/// `outputs`, each stream named with the lanes its rate needs; a stream
/// needing no lane is not carried at all. The machines split evenly over as many sub-rows as the wider
/// side's belts, at most one per machine, the first sub-rows one extra; each
/// sub-row is an input belt row, one input inserter per input along each
/// machine's top edge, the machines side by side, one output inserter per
/// output along their bottom edge, and an output belt row, every belt row
/// as wide as the widest sub-row. Refused as `rows_refusal` says, before
/// anything is placed.
pub fn place_step(
    grid: &mut Vec<Placement>,
    machine: &EntityPrototype,
    recipe: &Recipe,
    machines_needed: u32,
    inputs: &Vec<(String, u32)>,
    outputs: &Vec<(String, u32)>,
    cfg: &ResolvedConfig,
    origin: GridPos,
) -> (res: Result<StepExtent, LayoutError>)
    requires
        machine.wf(),
        cfg.wf(),
        origin.x + (if machines_needed >= 1 { machines_needed as int } else { 1 }) * machine.tile_width <= i32::MAX,
        origin.y + (if machines_needed >= 1 { machines_needed as int } else { 1 }) * (machine.tile_height + 4 + STEP_GAP)
            <= i32::MAX,
    ensures
        ({
            let machines = if machines_needed >= 1 { machines_needed as int } else { 1 };
            let ins = carried_names(inputs@);
            let outs = carried_names(outputs@);
            let mw = machine.tile_width as int;
            let mh = machine.tile_height as int;
            let rows = sub_rows(
                machines,
                packed(carried(lane_needs(inputs@))).len() as int,
                packed(carried(lane_needs(outputs@))).len() as int,
            );
            let width = row_machines(machines, rows, 0) * mw;
            match rows_refusal(*recipe, *machine, *cfg.inserter, ins, outs) {
                Some(refused) => res matches Err(e) && refused(e) && final(grid)@ == old(grid)@,
                None => {
                    &&& res matches Ok(ext)
                    &&& ext.width == width
                    &&& ext.height == rows * (mh + 4) + (rows - 1) * STEP_GAP
                    &&& views(final(grid)@) == views(old(grid)@) + rows_upto(
                        *machine,
                        recipe.name@,
                        *cfg,
                        spec_inserter_direction(*cfg.inserter, (0, -1), (0, 1))->0,
                        origin,
                        ins.len() as int,
                        outs.len() as int,
                        width,
                        machines,
                        rows,
                        rows,
                    )
                },
            }
        }),
{
    let ghost ins = carried_names(inputs@);
    let ghost outs = carried_names(outputs@);
    let in_streams = carried_streams(inputs);
    let out_streams = carried_streams(outputs);
    let in_names = names_of_streams(&in_streams);
    let out_names = names_of_streams(&out_streams);
    proof {
        assert(stream_names(in_streams@) =~= ins);
        assert(stream_names(out_streams@) =~= outs);
    }
    if let Some(i) = fluid_among(&in_names, &recipe.ingredients, Ghost(ins)) {
        return Err(LayoutError::FluidOnBelt { recipe: recipe.name.clone(), item: in_names[i].clone() });
    }
    if let Some(i) = fluid_among(&out_names, &recipe.results, Ghost(outs)) {
        return Err(LayoutError::FluidOnBelt { recipe: recipe.name.clone(), item: out_names[i].clone() });
    }
    if in_streams.len() > 2 {
        return Err(LayoutError::TooManyIngredientsForLanes { recipe: recipe.name.clone(), ingredients: in_names, lanes: 2 });
    }
    if out_streams.len() > 2 {
        return Err(LayoutError::MultipleProducts { recipe: recipe.name.clone(), products: out_names });
    }
    let mw = machine.tile_width;
    let mh = machine.tile_height;
    if in_streams.len() > mw as usize {
        return Err(LayoutError::NoRoomForInserters {
            recipe: recipe.name.clone(),
            machine: machine.name.clone(),
            needed: in_streams.len(),
            edge_tiles: mw,
        });
    }
    if out_streams.len() > mw as usize {
        return Err(LayoutError::NoRoomForInserters {
            recipe: recipe.name.clone(),
            machine: machine.name.clone(),
            needed: out_streams.len(),
            edge_tiles: mw,
        });
    }
    let d = match inserter_direction(cfg.inserter, (0, -1), (0, 1)) {
        Ok(d) => d,
        Err(e) => {
            return Err(e);
        },
    };
    let in_belts = pack_carried(&in_streams);
    let out_belts = pack_carried(&out_streams);
    proof {
        assert(in_belts@.len() == packed(carried(lane_needs(inputs@))).len());
        assert(out_belts@.len() == packed(carried(lane_needs(outputs@))).len());
    }
    let machines: u32 = if machines_needed >= 1 { machines_needed } else { 1 };
    let widest: usize = if in_belts.len() >= out_belts.len() { in_belts.len() } else { out_belts.len() };
    let widest: usize = if widest >= 1 { widest } else { 1 };
    let rows: u32 = if widest as u64 <= machines as u64 { widest as u32 } else { machines };
    assert(rows == sub_rows(machines as int, in_belts@.len() as int, out_belts@.len() as int));
    let base = machines / rows;
    let rem = machines % rows;
    proof {
        lemma_row_counts(machines as int, rows as int, 0);
        assert(row_machines(machines as int, rows as int, 0) * mw <= machines * mw) by (nonlinear_arith)
            requires
                row_machines(machines as int, rows as int, 0) <= machines,
                mw >= 0,
        ;
    }
    let first_count: u32 = if rem > 0 { base + 1 } else { base };
    let width: u32 = first_count * mw;
    let ghost start = views(grid@);
    let ghost done = rows_upto(*machine, recipe.name@, *cfg, d, origin, in_streams@.len() as int, out_streams@.len() as int, width as int, machines as int, rows as int, 0);
    assert(done =~= Seq::<PlacedView>::empty());
    let mut s: u32 = 0;
    while s < rows
        invariant
            machine.wf(),
            cfg.wf(),
            1 <= rows <= machines,
            s <= rows,
            mw == machine.tile_width,
            mh == machine.tile_height,
            in_streams@.len() <= mw,
            out_streams@.len() <= mw,
            base == machines / rows,
            rem == machines % rows,
            width == row_machines(machines as int, rows as int, 0) * mw,
            width <= machines * mw,
            origin.x + machines * mw <= i32::MAX,
            origin.y + machines * (mh + 4 + STEP_GAP) <= i32::MAX,
            views(grid@) == start + rows_upto(
                *machine,
                recipe.name@,
                *cfg,
                d,
                origin,
                in_streams@.len() as int,
                out_streams@.len() as int,
                width as int,
                machines as int,
                rows as int,
                s as int,
            ),
        decreases rows - s,
    {
        proof {
            lemma_row_counts(machines as int, rows as int, s as int);
            assert(s * (mh + 4 + STEP_GAP) + (mh + 4 + STEP_GAP) <= machines * (mh + 4 + STEP_GAP)) by (nonlinear_arith)
                requires
                    s + 1 <= rows <= machines,
                    mh >= 0,
            ;
            assert(0 <= s * (mh + 4 + STEP_GAP)) by (nonlinear_arith)
                requires
                    s >= 0,
                    mh >= 0,
            ;
        }
        let top: i32 = (origin.y as i64 + (s as i64) * (mh as i64 + 4 + STEP_GAP as i64)) as i32;
        let count: u32 = if s < rem { base + 1 } else { base };
        let ghost row_start = views(grid@);
        let ghost belts_in = if in_streams@.len() > 0 { belt_row(*cfg.belt, origin.x as int, top as int, width as int) } else { Seq::empty() };
        let ghost belts_out = if out_streams@.len() > 0 {
            belt_row(*cfg.belt, origin.x as int, top + 3 + mh, width as int)
        } else {
            Seq::empty()
        };
        if in_streams.len() > 0 {
            place_belt_row(grid, cfg.belt, origin.x, top, width);
        }
        if out_streams.len() > 0 {
            place_belt_row(grid, cfg.belt, origin.x, top + 3 + mh as i32, width);
        }
        assert(views(grid@) =~= row_start + belts_in + belts_out);
        let mut i: u32 = 0;
        while i < count
            invariant
                machine.wf(),
                cfg.wf(),
                i <= count,
                count <= machines,
                count == row_machines(machines as int, rows as int, s as int),
                mw == machine.tile_width,
                mh == machine.tile_height,
                in_streams@.len() <= mw,
                out_streams@.len() <= mw,
                origin.x + machines * mw <= i32::MAX,
                top + mh + 4 + STEP_GAP <= i32::MAX,
                top >= origin.y,
                width <= machines * mw,
                views(grid@) == row_start + belts_in + belts_out + row_machines_upto(
                    *machine,
                    recipe.name@,
                    *cfg.inserter,
                    d,
                    origin.x as int,
                    top as int,
                    in_streams@.len() as int,
                    out_streams@.len() as int,
                    i as int,
                ),
            decreases count - i,
        {
            proof {
                assert(i * mw + mw <= machines * mw) by (nonlinear_arith)
                    requires
                        i + 1 <= count <= machines,
                        mw >= 0,
                ;
                assert(0 <= i * mw) by (nonlinear_arith)
                    requires
                        i >= 0,
                        mw >= 0,
                ;
            }
            let left: i32 = (origin.x as i64 + (i as i64) * (mw as i64)) as i32;
            place_row_machine(grid, machine, recipe.name.as_str(), cfg.inserter, d, left, top, in_streams.len(), out_streams.len());
            i = i + 1;
        }
        proof {
            assert(views(grid@) =~= start + rows_upto(
                *machine,
                recipe.name@,
                *cfg,
                d,
                origin,
                in_streams@.len() as int,
                out_streams@.len() as int,
                width as int,
                machines as int,
                rows as int,
                s + 1,
            ));
        }
        s = s + 1;
    }
    proof {
        assert(rows * (mh + 4) + (rows - 1) * STEP_GAP <= machines * (mh + 4 + STEP_GAP)) by (nonlinear_arith)
            requires
                1 <= rows <= machines,
                mh >= 0,
        ;
    }
    let height: u32 = rows * (mh + 4) + (rows - 1) * STEP_GAP as u32;
    Ok(StepExtent { width, height })
}

} // verus!
