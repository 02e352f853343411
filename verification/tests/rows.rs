use factorio_solver::layout::config::{LayoutConfig, ResolvedConfig};
use factorio_solver::layout::place::Placement;
use factorio_solver::layout::rows::place_step;
use factorio_solver::layout::tile::STEP_GAP;
use factorio_solver::layout::{GridPos, LayoutError};
use factorio_solver::prototype::{Direction, EntityCategory, EntityPrototype, Frac, Prototypes};
use factorio_solver::recipe::{ItemKind, Recipe, RecipeItem};

fn proto(name: &str, category: EntityCategory, w: u32, h: u32) -> EntityPrototype {
    EntityPrototype {
        name: name.to_string(),
        category,
        tile_width: w,
        tile_height: h,
        crafting_categories: vec![],
        crafting_speed: None,
        belt_throughput: None,
        supply_area_distance: None,
        pickup_position: None,
        insert_position: None,
    }
}

fn protos() -> Prototypes {
    let mut belt = proto("express-transport-belt", EntityCategory::Belt, 1, 1);
    belt.belt_throughput = Some(Frac::whole(45));
    let mut pole = proto("medium-electric-pole", EntityCategory::ElectricPole, 1, 1);
    pole.supply_area_distance = Some(Frac::new(7, 2));
    let mut machine = proto("assembling-machine-2", EntityCategory::Assembler, 3, 3);
    machine.crafting_categories = vec!["crafting".to_string(), "electronics".to_string()];
    machine.crafting_speed = Some(Frac::new(3, 4));
    let mut ins = proto("fast-inserter", EntityCategory::Inserter, 1, 1);
    ins.pickup_position = Some((Frac::whole(0), Frac::whole(-1)));
    ins.insert_position = Some((Frac::whole(0), Frac::new(6, 5)));
    let mut odd = proto("odd-inserter", EntityCategory::Inserter, 1, 1);
    odd.pickup_position = Some((Frac::whole(0), Frac::whole(-3)));
    odd.insert_position = Some((Frac::whole(0), Frac::whole(3)));
    let mut long = proto("long-handed-inserter", EntityCategory::Inserter, 1, 1);
    long.pickup_position = Some((Frac::whole(0), Frac::whole(-2)));
    long.insert_position = Some((Frac::whole(0), Frac::new(11, 5)));
    Prototypes::from_prototypes(vec![belt, pole, machine, ins, odd, long])
}

fn cfg(ps: &Prototypes) -> ResolvedConfig<'_> {
    LayoutConfig::new("express-transport-belt", "medium-electric-pole", "fast-inserter").resolve(ps).unwrap()
}

fn circuit_recipe() -> Recipe {
    let item = |n: &str| RecipeItem::new(n, ItemKind::Item);
    Recipe::new(
        "electronic-circuit",
        "electronics",
        vec![item("iron-plate"), item("copper-cable")],
        vec![item("electronic-circuit")],
    )
}

fn streams(items: &[(&str, u32)]) -> Vec<(String, u32)> {
    items.iter().map(|(n, l)| (n.to_string(), *l)).collect()
}

/// Machine counts per sub-row, top to bottom.
fn machine_counts_by_row(grid: &[Placement]) -> Vec<usize> {
    let mut rows: Vec<(i32, usize)> = vec![];
    for p in grid.iter().filter(|p| p.name == "assembling-machine-2") {
        match rows.iter_mut().find(|(y, _)| *y == p.top_left.y) {
            Some(r) => r.1 += 1,
            None => rows.push((p.top_left.y, 1)),
        }
    }
    rows.sort();
    rows.into_iter().map(|(_, c)| c).collect()
}

fn at(grid: &[Placement], x: i32, y: i32) -> Option<&Placement> {
    grid.iter().find(|p| {
        p.top_left.x <= x
            && x < p.top_left.x + p.size.0 as i32
            && p.top_left.y <= y
            && y < p.top_left.y + p.size.1 as i32
    })
}

#[test]
fn uneven_distribution_gives_the_remainder_to_the_first_sub_rows_and_belts_stay_full_width() {
    let ps = protos();
    let cfg = cfg(&ps);
    let machine = ps.lookup("assembling-machine-2").unwrap();
    let mut grid: Vec<Placement> = vec![];
    let extent = place_step(
        &mut grid,
        machine,
        &circuit_recipe(),
        7,
        &streams(&[("iron-plate", 3), ("copper-cable", 1)]),
        &vec![],
        &cfg,
        GridPos { x: 0, y: 0 },
    )
    .unwrap();
    assert_eq!(machine_counts_by_row(&grid), vec![3, 2, 2]);
    assert_eq!(extent.width, 9, "the widest sub-row (3 machines) sets the width");
    assert_eq!(extent.height, 3 * (3 + 4) + 2 * STEP_GAP as u32);
    for s in 0..3i32 {
        let band_top = s * (3 + 4 + STEP_GAP);
        for x in 0..extent.width as i32 {
            let belt = at(&grid, x, band_top).expect("sub-row belt missing");
            assert_eq!(belt.name, "express-transport-belt");
            assert_eq!(belt.direction, Direction::East);
        }
    }
}

#[test]
fn circuit_step_needs_six_sub_rows_of_five() {
    let ps = protos();
    let cfg = cfg(&ps);
    let machine = ps.lookup("assembling-machine-2").unwrap();
    let mut grid: Vec<Placement> = vec![];
    place_step(
        &mut grid,
        machine,
        &circuit_recipe(),
        30,
        &streams(&[("iron-plate", 2), ("copper-cable", 6)]),
        &streams(&[("electronic-circuit", 2)]),
        &cfg,
        GridPos { x: 0, y: 0 },
    )
    .unwrap();
    assert_eq!(machine_counts_by_row(&grid), vec![5, 5, 5, 5, 5, 5]);
}

#[test]
fn inserters_face_between_machine_and_belt() {
    let ps = protos();
    let cfg = cfg(&ps);
    let machine = ps.lookup("assembling-machine-2").unwrap();
    let mut grid: Vec<Placement> = vec![];
    place_step(
        &mut grid,
        machine,
        &circuit_recipe(),
        2,
        &streams(&[("iron-plate", 1), ("copper-cable", 1)]),
        &streams(&[("electronic-circuit", 1)]),
        &cfg,
        GridPos { x: 0, y: 0 },
    )
    .unwrap();
    let inserters: Vec<&Placement> = grid.iter().filter(|p| p.name == "fast-inserter").collect();
    assert_eq!(inserters.len(), 2 * 3);
    for p in inserters {
        assert_eq!(p.direction, Direction::North);
        let above = at(&grid, p.top_left.x, p.top_left.y - 1).map(|e| e.name.as_str());
        let below = at(&grid, p.top_left.x, p.top_left.y + 1).map(|e| e.name.as_str());
        match above {
            Some("express-transport-belt") => assert_eq!(below, Some("assembling-machine-2")),
            Some("assembling-machine-2") => assert_eq!(below, Some("express-transport-belt")),
            other => panic!("inserter picks up from {other:?}"),
        }
    }
}

#[test]
fn step_extent_matches_placed_entities_at_any_origin() {
    let ps = protos();
    let cfg = cfg(&ps);
    let machine = ps.lookup("assembling-machine-2").unwrap();
    for origin in [GridPos { x: 5, y: 5 }, GridPos { x: -12, y: -30 }] {
        let mut grid: Vec<Placement> = vec![];
        let extent = place_step(
            &mut grid,
            machine,
            &circuit_recipe(),
            5,
            &streams(&[("iron-plate", 1), ("copper-cable", 3)]),
            &streams(&[("electronic-circuit", 1)]),
            &cfg,
            origin,
        )
        .unwrap();
        let min_x = grid.iter().map(|p| p.top_left.x).min().unwrap();
        let min_y = grid.iter().map(|p| p.top_left.y).min().unwrap();
        let max_x = grid.iter().map(|p| p.top_left.x + p.size.0 as i32 - 1).max().unwrap();
        let max_y = grid.iter().map(|p| p.top_left.y + p.size.1 as i32 - 1).max().unwrap();
        assert_eq!((min_x, min_y), (origin.x, origin.y));
        assert_eq!(
            (max_x, max_y),
            (origin.x + extent.width as i32 - 1, origin.y + extent.height as i32 - 1)
        );
    }
}

#[test]
fn no_room_for_inserters_when_the_machine_is_too_narrow() {
    let ps = protos();
    let cfg = cfg(&ps);
    let narrow = proto("narrow-machine", EntityCategory::Assembler, 1, 1);
    let mut grid: Vec<Placement> = vec![];
    match place_step(
        &mut grid,
        &narrow,
        &circuit_recipe(),
        1,
        &streams(&[("iron-plate", 1), ("copper-cable", 1)]),
        &streams(&[("electronic-circuit", 1)]),
        &cfg,
        GridPos { x: 0, y: 0 },
    ) {
        Err(LayoutError::NoRoomForInserters { recipe, machine, needed, edge_tiles }) => {
            assert_eq!(recipe, "electronic-circuit");
            assert_eq!(machine, "narrow-machine");
            assert_eq!(needed, 2);
            assert_eq!(edge_tiles, 1);
        }
        other => panic!("expected NoRoomForInserters, got {other:?}"),
    }
    assert!(grid.is_empty());
}

#[test]
fn too_many_ingredients_for_one_belt() {
    let ps = protos();
    let cfg = cfg(&ps);
    let machine = ps.lookup("assembling-machine-2").unwrap();
    let mut grid: Vec<Placement> = vec![];
    match place_step(
        &mut grid,
        machine,
        &circuit_recipe(),
        1,
        &streams(&[("electronic-circuit", 1), ("plastic-bar", 1), ("copper-cable", 1)]),
        &streams(&[("advanced-circuit", 1)]),
        &cfg,
        GridPos { x: 0, y: 0 },
    ) {
        Err(LayoutError::TooManyIngredientsForLanes { recipe, ingredients, lanes }) => {
            assert_eq!(recipe, "electronic-circuit");
            assert_eq!(ingredients, vec!["electronic-circuit", "plastic-bar", "copper-cable"]);
            assert_eq!(lanes, 2);
        }
        other => panic!("expected TooManyIngredientsForLanes, got {other:?}"),
    }
}

#[test]
fn too_many_outputs_for_one_belt() {
    let ps = protos();
    let cfg = cfg(&ps);
    let machine = ps.lookup("assembling-machine-2").unwrap();
    let mut grid: Vec<Placement> = vec![];
    match place_step(
        &mut grid,
        machine,
        &circuit_recipe(),
        1,
        &streams(&[("iron-plate", 1)]),
        &streams(&[("a", 1), ("b", 1), ("c", 1)]),
        &cfg,
        GridPos { x: 0, y: 0 },
    ) {
        Err(LayoutError::MultipleProducts { recipe, products }) => {
            assert_eq!(recipe, "electronic-circuit");
            assert_eq!(products, vec!["a", "b", "c"]);
        }
        other => panic!("expected MultipleProducts, got {other:?}"),
    }
}

#[test]
fn a_fluid_stream_is_refused_before_any_row() {
    let ps = protos();
    let cfg = cfg(&ps);
    let machine = ps.lookup("assembling-machine-2").unwrap();
    let recipe = Recipe::new(
        "advanced-oil-processing",
        "oil-processing",
        vec![RecipeItem::new("crude-oil", ItemKind::Fluid), RecipeItem::new("water", ItemKind::Fluid)],
        vec![RecipeItem::new("heavy-oil", ItemKind::Fluid)],
    );
    let mut grid: Vec<Placement> = vec![];
    match place_step(
        &mut grid,
        machine,
        &recipe,
        1,
        &streams(&[("crude-oil", 1), ("water", 1)]),
        &streams(&[("heavy-oil", 1)]),
        &cfg,
        GridPos { x: 0, y: 0 },
    ) {
        Err(LayoutError::FluidOnBelt { recipe, item }) => {
            assert_eq!(recipe, "advanced-oil-processing");
            assert_eq!(item, "crude-oil");
        }
        other => panic!("expected FluidOnBelt, got {other:?}"),
    }
    assert!(grid.is_empty(), "nothing may be placed before the refusal");
}

#[test]
fn an_inserter_that_cannot_reach_is_refused() {
    let ps = protos();
    let cfg = LayoutConfig::new("express-transport-belt", "medium-electric-pole", "odd-inserter")
        .resolve(&ps)
        .unwrap();
    let machine = ps.lookup("assembling-machine-2").unwrap();
    let mut grid: Vec<Placement> = vec![];
    match place_step(
        &mut grid,
        machine,
        &circuit_recipe(),
        1,
        &streams(&[("iron-plate", 1)]),
        &streams(&[("electronic-circuit", 1)]),
        &cfg,
        GridPos { x: 0, y: 0 },
    ) {
        Err(LayoutError::InserterUnknown(name)) => assert_eq!(name, "odd-inserter"),
        other => panic!("expected InserterUnknown, got {other:?}"),
    }
    assert!(grid.is_empty());
}

#[test]
fn a_stream_needing_no_lane_gets_no_inserter_and_no_refusal() {
    let ps = protos();
    let cfg = cfg(&ps);
    let machine = ps.lookup("assembling-machine-2").unwrap();
    let mut grid: Vec<Placement> = vec![];
    place_step(
        &mut grid,
        machine,
        &circuit_recipe(),
        1,
        &streams(&[("iron-plate", 1), ("idle", 0), ("copper-cable", 1)]),
        &streams(&[("electronic-circuit", 1), ("idle-product", 0)]),
        &cfg,
        GridPos { x: 0, y: 0 },
    )
    .expect("three named inputs, but only two are carried");
    assert_eq!(grid.iter().filter(|p| p.name == "fast-inserter").count(), 3);
}
