use factorio_solver::layout::cell::{CellPlan, CellTopology, Side};
use factorio_solver::layout::config::{LayoutConfig, ResolvedConfig};
use factorio_solver::layout::geometry::{cell_width, column_height, machine_row_offset, pole_period, x_layout};
use factorio_solver::layout::grid::{get_at, inserter_cells, PlacedEntity};
use factorio_solver::layout::place::{place_cell, CellExtent, Placement};
use factorio_solver::layout::power::place_poles;
use factorio_solver::layout::tile::place_step;
use factorio_solver::layout::validate::{check_no_overlaps, validate_grid};
use factorio_solver::layout::{drop_lane, GridPos, LaneSide, LayoutError};
use factorio_solver::prototype::{Direction, EntityCategory, EntityPrototype, Frac, Prototypes};
use factorio_solver::recipe::{ItemKind, Recipe, RecipeItem, RecipeRegistry};
use factorio_solver::registry::Registry;

// ── Fixture ───────────────────────────────────────────────────────────

fn proto(name: &str, category: EntityCategory, w: u32, h: u32) -> EntityPrototype {
    EntityPrototype {
        name: name.to_string(),
        category,
        tile_width: w,
        tile_height: h,
        crafting_categories: vec![],
        crafting_speed: None,
        belt_throughput: None,
        supply_area_distance: None,
        pickup_position: None,
        insert_position: None,
    }
}

fn inserter(name: &str, reach: i64) -> EntityPrototype {
    let mut p = proto(name, EntityCategory::Inserter, 1, 1);
    p.pickup_position = Some((Frac::whole(0), Frac::whole(-reach)));
    p.insert_position = Some((Frac::whole(0), Frac::new(reach * 5 + 1, 5)));
    p
}

fn protos() -> Prototypes {
    let mut belt = proto("express-transport-belt", EntityCategory::Belt, 1, 1);
    belt.belt_throughput = Some(Frac::whole(45));
    let mut pole = proto("medium-electric-pole", EntityCategory::ElectricPole, 1, 1);
    pole.supply_area_distance = Some(Frac::new(7, 2));
    let mut machine = proto("assembling-machine-2", EntityCategory::Assembler, 3, 3);
    machine.crafting_categories = vec!["crafting".to_string(), "electronics".to_string()];
    machine.crafting_speed = Some(Frac::new(3, 4));
    let mut centrifuge = proto("centrifuge", EntityCategory::Assembler, 3, 3);
    centrifuge.crafting_categories = vec!["centrifuging".to_string()];
    centrifuge.crafting_speed = Some(Frac::whole(1));
    Prototypes::from_prototypes(vec![
        belt,
        pole,
        machine,
        centrifuge,
        inserter("fast-inserter", 1),
        inserter("long-handed-inserter", 2),
    ])
}

fn recipes() -> RecipeRegistry {
    let item = |n: &str| RecipeItem::new(n, ItemKind::Item);
    Registry::from_entries(vec![Recipe::new(
        "electronic-circuit",
        "electronics",
        vec![item("iron-plate"), item("copper-cable")],
        vec![item("electronic-circuit")],
    )])
}

fn cfg(ps: &Prototypes) -> ResolvedConfig<'_> {
    LayoutConfig::new("express-transport-belt", "medium-electric-pole", "fast-inserter").resolve(ps).unwrap()
}

/// The green-circuit cell: cable on three lanes, plate on one, six machines
/// split three and three.
fn circuit_plan() -> CellPlan {
    CellPlan {
        machines_per_cell: 6,
        columns: (3, 3),
        cells: 1,
        lane_allocation: vec![("copper-cable".to_string(), 3), ("iron-plate".to_string(), 1)],
        bound_by: "copper-cable".to_string(),
    }
}

fn to_grid(placed: &[Placement], ps: &Prototypes) -> Vec<PlacedEntity> {
    placed
        .iter()
        .map(|p| PlacedEntity {
            name: p.name.clone(),
            category: ps.lookup(&p.name).unwrap().category,
            top_left: p.top_left,
            size: p.size,
            direction: p.direction,
            recipe: p.recipe.clone(),
            filters: vec![],
        })
        .collect()
}

/// Each inserter's own cell, pickup cell and drop cell, derived from the
/// placed entity's prototype and facing, and its prototype name.
fn placed_inserters(grid: &[PlacedEntity], ps: &Prototypes) -> Vec<(GridPos, GridPos, GridPos, String)> {
    grid.iter()
        .filter(|e| e.category == EntityCategory::Inserter)
        .map(|e| {
            let ((px, py), (ix, iy)) = inserter_cells(e, ps).expect("a placed inserter has reach");
            (
                e.top_left,
                GridPos { x: px as i32, y: py as i32 },
                GridPos { x: ix as i32, y: iy as i32 },
                e.name.clone(),
            )
        })
        .collect()
}

fn name_at(grid: &Vec<PlacedEntity>, at: GridPos) -> Option<String> {
    get_at(grid, at.x as i128, at.y as i128).map(|i| grid[i].name.clone())
}

/// Every (belt tile, lane) an inserter drops onto, checking on the way that
/// the far lane exists and that no two inserters drop onto the same one.
fn claimed(grid: &Vec<PlacedEntity>, ps: &Prototypes) -> Vec<(GridPos, LaneSide)> {
    let mut out: Vec<(GridPos, LaneSide)> = Vec::new();
    for (cell, _pickup, insert, _name) in placed_inserters(grid, ps) {
        if name_at(grid, insert).as_deref() != Some("express-transport-belt") {
            continue;
        }
        let lane = drop_lane(cell, insert).expect("an inserter dropping onto a belt has a far lane");
        assert!(!out.contains(&(insert, lane)), "lane {lane:?} of belt {insert:?} claimed twice");
        out.push((insert, lane));
    }
    out
}

fn place(
    plan: &CellPlan,
    topo: &CellTopology,
    origin: GridPos,
    edge_left: bool,
    grid: &mut Vec<Placement>,
) -> Result<CellExtent, LayoutError> {
    let ps = protos();
    let c = cfg(&ps);
    let machine = ps.lookup("assembling-machine-2").unwrap();
    place_cell(grid, machine, "electronic-circuit", plan, &c, topo, origin, edge_left)
}

// ── One cell ──────────────────────────────────────────────────────────

#[test]
fn every_output_inserter_claims_the_far_lane_and_no_lane_is_claimed_twice() {
    let plan = circuit_plan();
    let topo = CellTopology::default();
    let mut placed = Vec::new();
    place(&plan, &topo, GridPos { x: 0, y: 0 }, true, &mut placed).unwrap();
    let grid = to_grid(&placed, &protos());
    let lanes = claimed(&grid, &protos());
    assert_eq!(lanes.len() as u32, plan.columns.0 + plan.columns.1);
}

#[test]
fn both_lanes_of_a_shared_belt_are_claimed_by_opposite_columns() {
    let plan = circuit_plan();
    let topo = CellTopology::default();
    let mut placed = Vec::new();
    let first = place(&plan, &topo, GridPos { x: 0, y: 0 }, true, &mut placed).unwrap();
    place(&plan, &topo, GridPos { x: first.width as i32, y: 0 }, false, &mut placed).unwrap();
    let ps = protos();
    let grid = to_grid(&placed, &ps);

    let shared_x = first.width as i32 - topo.edge_belts as i32;
    let mut lanes: Vec<LaneSide> = Vec::new();
    let mut sides: Vec<i32> = Vec::new();
    for (cell, _pickup, insert, _name) in placed_inserters(&grid, &ps) {
        if insert.x != shared_x || name_at(&grid, insert).as_deref() != Some("express-transport-belt") {
            continue;
        }
        let lane = drop_lane(cell, insert).expect("far lane must exist");
        if !lanes.contains(&lane) {
            lanes.push(lane);
        }
        if !sides.contains(&cell.x) {
            sides.push(cell.x);
        }
    }
    assert_eq!(lanes.len(), 2, "both lanes of the shared belt must be claimed");
    assert_eq!(sides.len(), 2, "the two claims must come from inserters on opposite sides");
}

#[test]
fn a_long_inserter_serves_the_far_belt_of_a_pair() {
    let plan = circuit_plan();
    let topo = CellTopology::default();
    assert_eq!(topo.spine_belts, 2, "this test exercises the spine pair");
    let mut placed = Vec::new();
    place(&plan, &topo, GridPos { x: 0, y: 0 }, true, &mut placed).unwrap();
    let ps = protos();
    let grid = to_grid(&placed, &ps);
    let (mut short_seen, mut long_seen) = (false, false);
    for (cell, pickup, _insert, name) in placed_inserters(&grid, &ps) {
        if name_at(&grid, pickup).as_deref() != Some("express-transport-belt") {
            continue;
        }
        match (pickup.x - cell.x).abs() {
            1 => {
                assert_eq!(name, "fast-inserter", "the inner belt should use the short inserter");
                short_seen = true;
            }
            2 => {
                assert_eq!(name, "long-handed-inserter", "the outer belt should use the long inserter");
                long_seen = true;
            }
            other => panic!("unexpected inserter reach {other}"),
        }
    }
    assert!(short_seen && long_seen, "both inserter tiers should appear on copper-cable's shared belt");
}

#[test]
fn machines_do_not_overlap_and_the_extent_bounds_them() {
    let plan = circuit_plan();
    let topo = CellTopology::default();
    let ps = protos();
    for (origin, edge_left) in [(GridPos { x: 0, y: 0 }, true), (GridPos { x: -41, y: -23 }, false)] {
        let mut placed = Vec::new();
        let extent = place(&plan, &topo, origin, edge_left, &mut placed).unwrap();
        let grid = to_grid(&placed, &ps);
        assert!(check_no_overlaps(&grid).is_ok());
        for (i, e) in grid.iter().enumerate() {
            for dy in 0..e.size.1 as i32 {
                for dx in 0..e.size.0 as i32 {
                    let (cx, cy) = (e.top_left.x + dx, e.top_left.y + dy);
                    assert!(cx >= origin.x && cx < origin.x + extent.width as i32, "{} at ({cx},{cy})", e.name);
                    assert!(cy >= origin.y && cy < origin.y + extent.height as i32, "{} at ({cx},{cy})", e.name);
                    assert_eq!(get_at(&grid, cx as i128, cy as i128), Some(i));
                }
            }
        }
        let machines = grid.iter().filter(|e| e.name == "assembling-machine-2").count();
        assert_eq!(machines as u32, plan.columns.0 + plan.columns.1);
    }
}

#[test]
fn the_extent_matches_the_predicted_width_and_the_reserved_rows() {
    let plan = circuit_plan();
    let topo = CellTopology::default();
    let ps = protos();
    let machine = ps.lookup("assembling-machine-2").unwrap();
    let mut placed = Vec::new();
    let extent = place(&plan, &topo, GridPos { x: 5, y: 7 }, true, &mut placed).unwrap();
    assert_eq!(extent.width, cell_width(machine, &topo, true));
    assert_eq!(extent.width, 14);
    // Medium poles reach 3.5 tiles: a reserved row before every two machines.
    assert_eq!(pole_period(Frac::new(7, 2), 3), 2);
    assert_eq!(extent.height, 11, "rows 0 and 7 reserved, machines at 1, 4 and 8");
    let machine_rows: Vec<i32> =
        placed.iter().filter(|p| p.name == "assembling-machine-2").map(|p| p.top_left.y - 7).collect();
    assert_eq!(machine_rows, vec![1, 4, 8, 1, 4, 8]);
}

#[test]
fn a_machine_too_narrow_for_its_streams_is_a_named_error() {
    let topo = CellTopology { spine_belts: 2, edge_belts: 2, ..CellTopology::default() };
    let plan = CellPlan {
        machines_per_cell: 1,
        columns: (1, 0),
        cells: 1,
        lane_allocation: vec![
            ("a".to_string(), 1),
            ("b".to_string(), 1),
            ("c".to_string(), 1),
            ("d".to_string(), 1),
        ],
        bound_by: "a".to_string(),
    };
    let mut placed = Vec::new();
    match place(&plan, &topo, GridPos { x: 0, y: 0 }, true, &mut placed) {
        Err(LayoutError::NoRoomForInserters { recipe, machine, needed, edge_tiles }) => {
            assert_eq!(recipe, "electronic-circuit");
            assert_eq!(machine, "assembling-machine-2");
            assert!(needed as u32 > edge_tiles, "{needed} inserters needed but only {edge_tiles} tiles");
        }
        other => panic!("expected NoRoomForInserters, got {other:?}"),
    }
    assert_eq!(placed.len(), 0, "nothing may be placed before the refusal");
}

#[test]
fn a_trailing_cell_with_an_empty_second_column_still_places() {
    let mut plan = circuit_plan();
    plan.columns = (3, 0);
    let topo = CellTopology::default();
    let mut placed = Vec::new();
    let extent = place(&plan, &topo, GridPos { x: 0, y: 0 }, true, &mut placed).unwrap();
    let machines = placed.iter().filter(|p| p.name == "assembling-machine-2").count();
    assert_eq!(machines, 3);
    let period = pole_period(Frac::new(7, 2), 3);
    assert_eq!(extent.height as u64, column_height(3, 3, period).max(1), "must include reserved pole rows");
}

#[test]
fn an_empty_cell_places_only_its_belts() {
    let mut plan = circuit_plan();
    plan.columns = (0, 0);
    let topo = CellTopology::default();
    let mut placed = Vec::new();
    let extent = place(&plan, &topo, GridPos { x: 0, y: 0 }, true, &mut placed).unwrap();
    assert_eq!(extent.height, 1);
    assert_eq!(placed.len(), 4, "left edge, two spine belts, right edge: one tile each");
    assert!(placed.iter().all(|p| p.name == "express-transport-belt"));
}

#[test]
fn a_columns_reserved_rows_are_free_in_both_ingredient_gutters() {
    let plan = circuit_plan();
    let topo = CellTopology::default();
    let mut placed = Vec::new();
    place(&plan, &topo, GridPos { x: 0, y: 0 }, true, &mut placed).unwrap();
    let grid = to_grid(&placed, &protos());
    let layout = x_layout(3, &topo, true);
    let period = pole_period(Frac::new(7, 2), 3);
    let reserved_rows: Vec<i32> = (0..plan.columns.0.max(plan.columns.1))
        .filter(|&i| i % period == 0)
        .map(|i| machine_row_offset(i, 3, period) as i32 - 1)
        .collect();
    assert!(reserved_rows.len() > 1, "the fixture must exercise more than one group");
    for &y in &reserved_rows {
        for x in [layout.gutter_a_right, layout.gutter_b_left] {
            assert!(get_at(&grid, x as i128, y as i128).is_none(), "gutter ({x},{y}) on a reserved row must be free");
        }
    }
}

#[test]
fn flipping_ingredients_to_the_edge_moves_the_products_to_the_spine() {
    let topo = CellTopology { edge_belts: 1, ingredients_on: Side::Edge, ..CellTopology::default() };
    let plan = CellPlan {
        machines_per_cell: 6,
        columns: (3, 3),
        cells: 1,
        lane_allocation: vec![("copper-cable".to_string(), 1), ("iron-plate".to_string(), 1)],
        bound_by: "copper-cable".to_string(),
    };
    let mut placed = Vec::new();
    let extent = place(&plan, &topo, GridPos { x: 0, y: 0 }, true, &mut placed).unwrap();
    let grid = to_grid(&placed, &protos());
    let lanes = claimed(&grid, &protos());
    let e = topo.edge_belts as i32;
    let mut spine_lanes: Vec<LaneSide> = Vec::new();
    let mut edge_products = 0;
    for (belt, lane) in &lanes {
        if belt.x < e || belt.x >= extent.width as i32 - e {
            edge_products += 1;
        } else if !spine_lanes.contains(lane) {
            spine_lanes.push(*lane);
        }
    }
    assert_eq!(edge_products, 0, "products should land on the spine, not the edge, once flipped");
    assert_eq!(spine_lanes.len(), 2, "both spine lanes should be claimed");
    assert_eq!(lanes.len() as u32, 2 * (plan.columns.0 + plan.columns.1));
}

#[test]
fn a_placed_cell_passes_every_check_once_powered() {
    let plan = circuit_plan();
    let topo = CellTopology::default();
    let mut placed = Vec::new();
    place(&plan, &topo, GridPos { x: 0, y: 0 }, true, &mut placed).unwrap();
    let ps = protos();
    let mut grid = to_grid(&placed, &ps);
    let pole = ps.lookup("medium-electric-pole").unwrap();
    place_poles(&mut grid, &ps, pole).expect("the reserved rows leave room for poles");
    assert_eq!(validate_grid(&grid, &ps, &recipes()), Ok(()));
}

// ── A whole step ──────────────────────────────────────────────────────

fn step(topo: &CellTopology, machines: u32, sized: &CellPlan, grid: &mut Vec<Placement>) -> (u32, u32) {
    let ps = protos();
    let c = cfg(&ps);
    let machine = ps.lookup("assembling-machine-2").unwrap();
    let (ext, bound) =
        place_step(grid, machine, "electronic-circuit", machines, sized, &c, topo, GridPos { x: 0, y: 0 }).unwrap();
    assert_eq!(bound, sized.bound_by);
    (ext.width, ext.height)
}

fn three_cells() -> CellPlan {
    CellPlan {
        machines_per_cell: 4,
        columns: (2, 2),
        cells: 3,
        lane_allocation: vec![("copper-cable".to_string(), 3), ("iron-plate".to_string(), 1)],
        bound_by: "copper-cable".to_string(),
    }
}

#[test]
fn target_width_wraps_cells_into_bands() {
    let ps = protos();
    let machine = ps.lookup("assembling-machine-2").unwrap();
    let topo = CellTopology::default();
    let sized = three_cells();

    let mut unwrapped = Vec::new();
    let (uw, uh) = step(&topo, 10, &sized, &mut unwrapped);

    let two_cells = cell_width(machine, &topo, true) + cell_width(machine, &topo, false);
    let capped = CellTopology { target_width: Some(two_cells), ..CellTopology::default() };
    let mut wrapped = Vec::new();
    let (ww, wh) = step(&capped, 10, &sized, &mut wrapped);

    assert!(ww < uw, "a capped band must be narrower: capped={ww} unwrapped={uw}");
    assert!(wh > uh, "wrapping must add height: capped={wh} unwrapped={uh}");
    let machines = |g: &Vec<Placement>| g.iter().filter(|p| p.name == "assembling-machine-2").count();
    assert_eq!(machines(&wrapped), 10);
    assert_eq!(machines(&unwrapped), 10, "wrapping must not drop machines");
}

#[test]
fn a_step_fills_full_cells_first_and_the_last_takes_the_rest() {
    let topo = CellTopology::default();
    let sized = three_cells();
    let mut placed = Vec::new();
    let (w, h) = step(&topo, 10, &sized, &mut placed);
    assert_eq!(w, 14 + 13 + 13);
    // Two machines per column with a reserved row before each pair.
    assert_eq!(h, 7);
    let xs: Vec<i32> = placed.iter().filter(|p| p.name == "assembling-machine-2").map(|p| p.top_left.x).collect();
    let in_last = xs.iter().filter(|&&x| x >= 27).count();
    assert_eq!(in_last, 2, "10 machines in cells of 4 leave 2 for the last");
    let grid = to_grid(&placed, &protos());
    assert!(check_no_overlaps(&grid).is_ok());
}

#[test]
fn a_wider_cell_than_the_target_still_gets_a_band_of_its_own() {
    let topo = CellTopology { target_width: Some(5), ..CellTopology::default() };
    let sized = three_cells();
    let mut placed = Vec::new();
    let (w, h) = step(&topo, 12, &sized, &mut placed);
    assert_eq!(w, 14, "every cell starts its own band, with its own edge belts");
    assert_eq!(h, 3 * 7 + 2, "three bands and the two gaps between them");
}

#[test]
fn a_refused_step_names_the_first_cells_problem() {
    let topo = CellTopology { spine_belts: 2, edge_belts: 2, ..CellTopology::default() };
    let sized = CellPlan {
        machines_per_cell: 2,
        columns: (1, 1),
        cells: 2,
        lane_allocation: vec![
            ("a".to_string(), 1),
            ("b".to_string(), 1),
            ("c".to_string(), 1),
            ("d".to_string(), 1),
        ],
        bound_by: "a".to_string(),
    };
    let ps = protos();
    let c = cfg(&ps);
    let machine = ps.lookup("assembling-machine-2").unwrap();
    let mut placed = Vec::new();
    let res = place_step(&mut placed, machine, "electronic-circuit", 4, &sized, &c, &topo, GridPos { x: 0, y: 0 });
    assert!(matches!(res, Err(LayoutError::NoRoomForInserters { needed: 4, edge_tiles: 3, .. })));
    assert!(placed.is_empty());
}
