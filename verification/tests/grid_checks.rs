use factorio_solver::layout::cell::{CellTopology, Side};
use factorio_solver::layout::config::LayoutConfig;
use factorio_solver::layout::delivery::{check_no_mixed_product_belts, claimed_lanes};
use factorio_solver::layout::grid::{get_at, run_anchor, PlacedEntity};
use factorio_solver::layout::power::place_poles;
use factorio_solver::layout::validate::{
    check_machine_connectivity, check_no_overlaps, check_pole_coverage, coverage_gaps, needs_power, validate_grid,
};
use factorio_solver::layout::{GridPos, LayoutError};
use factorio_solver::prototype::{Direction, EntityCategory, EntityPrototype, Frac, Prototypes};
use factorio_solver::recipe::{ItemKind, Recipe, RecipeItem, RecipeRegistry};
use factorio_solver::registry::Registry;

// ── Fixture ───────────────────────────────────────────────────────────

fn proto(name: &str, category: EntityCategory, w: u32, h: u32) -> EntityPrototype {
    EntityPrototype {
        name: name.to_string(),
        category,
        tile_width: w,
        tile_height: h,
        crafting_categories: vec![],
        crafting_speed: None,
        belt_throughput: None,
        supply_area_distance: None,
        pickup_position: None,
        insert_position: None,
    }
}

fn belt(name: &str, per_sec: i64) -> EntityPrototype {
    let mut p = proto(name, EntityCategory::Belt, 1, 1);
    p.belt_throughput = Some(Frac::whole(per_sec));
    p
}

fn inserter(name: &str, reach: i64) -> EntityPrototype {
    let mut p = proto(name, EntityCategory::Inserter, 1, 1);
    p.pickup_position = Some((Frac::whole(0), Frac::whole(-reach)));
    p.insert_position = Some((Frac::whole(0), Frac::new(reach * 5 + 1, 5)));
    p
}

fn pole(name: &str, twice_reach: i64) -> EntityPrototype {
    let mut p = proto(name, EntityCategory::ElectricPole, 1, 1);
    p.supply_area_distance = Some(Frac::new(twice_reach, 2));
    p
}

fn machine(name: &str, category: EntityCategory, size: u32, categories: &[&str]) -> EntityPrototype {
    let mut p = proto(name, category, size, size);
    p.crafting_categories = categories.iter().map(|s| s.to_string()).collect();
    p.crafting_speed = Some(Frac::new(3, 4));
    p
}

fn protos() -> Prototypes {
    Prototypes::from_prototypes(vec![
        belt("transport-belt", 15),
        belt("express-transport-belt", 45),
        inserter("inserter", 1),
        inserter("fast-inserter", 1),
        inserter("long-handed-inserter", 2),
        pole("small-electric-pole", 5),
        pole("medium-electric-pole", 7),
        machine("assembling-machine-2", EntityCategory::Assembler, 3, &["crafting", "electronics"]),
        machine("stone-furnace", EntityCategory::Furnace, 2, &["smelting"]),
        machine("centrifuge", EntityCategory::Assembler, 3, &["centrifuging"]),
        proto("pipe", EntityCategory::Pipe, 1, 1),
        proto("pipe-to-ground", EntityCategory::Pipe, 1, 1),
        proto("splitter", EntityCategory::Splitter, 2, 1),
        proto("wooden-chest", EntityCategory::Container, 1, 1),
    ])
}

fn item(name: &str) -> RecipeItem {
    RecipeItem::new(name, ItemKind::Item)
}

fn recipe(name: &str, ingredients: &[&str], results: &[&str]) -> Recipe {
    Recipe::new(
        name,
        "crafting",
        ingredients.iter().map(|n| item(n)).collect(),
        results.iter().map(|n| item(n)).collect(),
    )
}

fn recipes() -> RecipeRegistry {
    Registry::from_entries(vec![
        recipe("iron-gear-wheel", &["iron-plate"], &["iron-gear-wheel"]),
        recipe("iron-plate", &["iron-ore"], &["iron-plate"]),
        recipe("recipe-unknown", &[], &[]),
        recipe("biter-egg", &[], &["biter-egg"]),
        recipe("uranium-processing", &["uranium-ore"], &["uranium-235", "uranium-238"]),
    ])
}

fn put(grid: &mut Vec<PlacedEntity>, name: &str, x: i32, y: i32, direction: Direction, recipe: Option<&str>) -> usize {
    let ps = protos();
    let p = ps.lookup(name).unwrap_or_else(|| panic!("{name} is not in the fixture"));
    grid.push(PlacedEntity {
        name: name.to_string(),
        category: p.category,
        top_left: GridPos { x, y },
        size: p.effective_size(direction),
        direction,
        recipe: recipe.map(|r| r.to_string()),
        filters: vec![],
    });
    grid.len() - 1
}

fn place_machine_at(grid: &mut Vec<PlacedEntity>, recipe: &str, x: i32, y: i32) {
    put(grid, "assembling-machine-2", x, y, Direction::North, Some(recipe));
}

fn place_machine(grid: &mut Vec<PlacedEntity>, recipe: &str) {
    place_machine_at(grid, recipe, 0, 0);
}

fn place_inserter(grid: &mut Vec<PlacedEntity>, x: i32, y: i32, dir: Direction) {
    put(grid, "fast-inserter", x, y, dir, None);
}

fn place_filtered_inserter(grid: &mut Vec<PlacedEntity>, x: i32, y: i32, dir: Direction, item: &str) {
    let i = put(grid, "fast-inserter", x, y, dir, None);
    grid[i].filters = vec![item.to_string()];
}

fn place_belt(grid: &mut Vec<PlacedEntity>, x: i32, y: i32, dir: Direction) {
    put(grid, "express-transport-belt", x, y, dir, None);
}

/// A machine band: a belt row, input inserters, a row of side-by-side
/// 3x3 machines, output inserters, a belt row.
fn build_band(n_machines: i32) -> Vec<PlacedEntity> {
    let mut grid = Vec::new();
    let width = n_machines * 3;
    for x in 0..width {
        put(&mut grid, "express-transport-belt", x, 0, Direction::East, None);
    }
    for m in 0..n_machines {
        put(&mut grid, "fast-inserter", m * 3 + 1, 1, Direction::South, None);
    }
    for m in 0..n_machines {
        let recipe = format!("recipe-{m}");
        put(&mut grid, "assembling-machine-2", m * 3, 2, Direction::North, Some(recipe.as_str()));
    }
    for m in 0..n_machines {
        put(&mut grid, "fast-inserter", m * 3 + 1, 5, Direction::North, None);
    }
    for x in 0..width {
        put(&mut grid, "express-transport-belt", x, 6, Direction::East, None);
    }
    grid
}

fn poles_named(grid: &[PlacedEntity], name: &str) -> Vec<(i32, i32)> {
    grid.iter().filter(|e| e.name == name).map(|e| (e.top_left.x, e.top_left.y)).collect()
}

fn cells(e: &PlacedEntity) -> Vec<(i32, i32)> {
    let mut out = Vec::new();
    for dy in 0..e.size.1 as i32 {
        for dx in 0..e.size.0 as i32 {
            out.push((e.top_left.x + dx, e.top_left.y + dy));
        }
    }
    out
}

fn power(grid: &mut Vec<PlacedEntity>, pole_name: &str) -> Result<(), LayoutError> {
    let ps = protos();
    let p = ps.lookup(pole_name).unwrap();
    place_poles(grid, &ps, p)
}

// ── Poles ─────────────────────────────────────────────────────────────

#[test]
fn coverage_gaps_is_nonempty_before_placing_poles() {
    let grid = build_band(4);
    assert!(!coverage_gaps(&grid, &protos()).is_empty(), "unpowered band must report gaps");
}

#[test]
fn every_machine_is_powered() {
    let mut grid = build_band(4);
    power(&mut grid, "medium-electric-pole").unwrap();
    assert!(coverage_gaps(&grid, &protos()).is_empty());
    assert!(check_pole_coverage(&grid, &protos()).is_ok());
}

#[test]
fn belts_and_pipes_do_not_need_power_but_inserters_and_machines_do() {
    assert!(!needs_power(EntityCategory::Belt));
    assert!(!needs_power(EntityCategory::Pipe));
    assert!(!needs_power(EntityCategory::Splitter));
    assert!(!needs_power(EntityCategory::ElectricPole));
    assert!(needs_power(EntityCategory::Inserter));
    assert!(needs_power(EntityCategory::Assembler));
    assert!(needs_power(EntityCategory::Furnace));
}

#[test]
fn pole_reach_comes_from_prototype_data() {
    let mut small_grid = build_band(8);
    power(&mut small_grid, "small-electric-pole").unwrap();
    let small_poles = poles_named(&small_grid, "small-electric-pole").len();
    let mut medium_grid = build_band(8);
    power(&mut medium_grid, "medium-electric-pole").unwrap();
    let medium_poles = poles_named(&medium_grid, "medium-electric-pole").len();
    assert!(small_poles >= medium_poles, "small={small_poles} medium={medium_poles}");
    assert!(
        small_poles > medium_poles,
        "an 8-machine band must need more small poles: small={small_poles} medium={medium_poles}"
    );
}

#[test]
fn poles_displace_nothing() {
    let mut grid = build_band(4);
    let before: Vec<(String, i32, i32)> = grid.iter().map(|e| (e.name.clone(), e.top_left.x, e.top_left.y)).collect();
    let occupied_before: Vec<(i32, i32)> = grid.iter().flat_map(|e| cells(e)).collect();
    power(&mut grid, "medium-electric-pole").unwrap();
    for (i, (name, x, y)) in before.iter().enumerate() {
        assert_eq!(&grid[i].name, name);
        assert_eq!((grid[i].top_left.x, grid[i].top_left.y), (*x, *y), "original entity moved");
    }
    for pole in grid[before.len()..].iter() {
        assert_eq!(pole.category, EntityCategory::ElectricPole);
        for cell in cells(pole) {
            assert!(!occupied_before.contains(&cell), "pole placed on a previously-occupied cell {cell:?}");
        }
    }
}

#[test]
fn place_poles_on_a_fully_covered_grid_is_a_no_op() {
    let mut grid = build_band(3);
    power(&mut grid, "medium-electric-pole").unwrap();
    let count_after_first = grid.len();
    power(&mut grid, "medium-electric-pole").unwrap();
    assert_eq!(grid.len(), count_after_first, "fully covered grid gets no extra poles");
}

#[test]
fn pole_placement_is_deterministic() {
    let mut a = build_band(5);
    let mut b = build_band(5);
    power(&mut a, "medium-electric-pole").unwrap();
    power(&mut b, "medium-electric-pole").unwrap();
    assert_eq!(poles_named(&a, "medium-electric-pole"), poles_named(&b, "medium-electric-pole"));
}

#[test]
fn no_room_for_pole_names_the_walled_in_recipe() {
    let mut grid = Vec::new();
    put(&mut grid, "stone-furnace", 0, 0, Direction::North, Some("iron-plate"));
    let radius = 10;
    for y in -radius..=radius {
        for x in -radius..=radius {
            if (0..2).contains(&x) && (0..2).contains(&y) {
                continue;
            }
            put(&mut grid, "transport-belt", x, y, Direction::North, None);
        }
    }
    match power(&mut grid, "small-electric-pole") {
        Err(LayoutError::NoRoomForPole { step, pole }) => {
            assert_eq!(step, "iron-plate");
            assert_eq!(pole, "small-electric-pole");
        }
        other => panic!("expected NoRoomForPole, got {other:?}"),
    }
}

#[test]
fn one_pole_covers_a_lone_furnace_from_the_first_free_spot() {
    let mut grid = Vec::new();
    put(&mut grid, "stone-furnace", 0, 0, Direction::North, Some("iron-plate"));
    power(&mut grid, "small-electric-pole").unwrap();
    assert_eq!(grid.len(), 2, "one pole is enough");
    assert_eq!(grid[1].name, "small-electric-pole");
    assert!(coverage_gaps(&grid, &protos()).is_empty());
}

// ── Belt runs ─────────────────────────────────────────────────────────

#[test]
fn a_vertical_run_shares_one_anchor() {
    let mut grid = Vec::new();
    for y in 0..3 {
        place_belt(&mut grid, 0, y, Direction::South);
    }
    for y in 0..3 {
        let belt = &grid[get_at(&grid, 0, y as i128).unwrap()];
        assert_eq!(run_anchor(&grid, belt), GridPos { x: 0, y: 0 });
    }
}

#[test]
fn a_horizontal_run_walks_the_x_axis_not_y() {
    let mut grid = Vec::new();
    for x in 0..3 {
        place_belt(&mut grid, x, 0, Direction::East);
    }
    for x in 0..3 {
        let belt = &grid[get_at(&grid, x as i128, 0).unwrap()];
        assert_eq!(run_anchor(&grid, belt), GridPos { x: 0, y: 0 });
    }
}

#[test]
fn a_gap_of_empty_ground_starts_a_new_run() {
    let mut grid = Vec::new();
    place_belt(&mut grid, 0, 0, Direction::South);
    place_belt(&mut grid, 0, 2, Direction::South);
    let a = &grid[get_at(&grid, 0, 0).unwrap()];
    let b = &grid[get_at(&grid, 0, 2).unwrap()];
    assert_ne!(run_anchor(&grid, a), run_anchor(&grid, b));
}

#[test]
fn a_direction_change_starts_a_new_run() {
    let mut grid = Vec::new();
    place_belt(&mut grid, 0, 0, Direction::South);
    place_belt(&mut grid, 0, 1, Direction::North);
    let a = &grid[get_at(&grid, 0, 0).unwrap()];
    let b = &grid[get_at(&grid, 0, 1).unwrap()];
    assert_ne!(run_anchor(&grid, a), run_anchor(&grid, b));
}

#[test]
fn get_at_finds_the_entity_covering_a_tile() {
    let mut grid = Vec::new();
    place_machine_at(&mut grid, "iron-gear-wheel", 2, 2);
    assert_eq!(get_at(&grid, 4, 4), Some(0));
    assert_eq!(get_at(&grid, 5, 4), None);
    assert_eq!(get_at(&grid, 1, 2), None);
}

// ── Machine connectivity ──────────────────────────────────────────────

fn connectivity(grid: &Vec<PlacedEntity>) -> Result<(), LayoutError> {
    check_machine_connectivity(grid, &protos(), &recipes())
}

#[test]
fn missing_input_inserter_is_reported() {
    let mut grid = Vec::new();
    place_machine(&mut grid, "iron-gear-wheel");
    place_inserter(&mut grid, 1, 3, Direction::North);
    match connectivity(&grid) {
        Err(LayoutError::MachineNotConnected { recipe, x, y, missing }) => {
            assert_eq!(recipe, "iron-gear-wheel");
            assert_eq!((x, y), (0, 0));
            assert_eq!(missing, "input");
        }
        other => panic!("expected a missing-input MachineNotConnected, got {other:?}"),
    }
}

#[test]
fn missing_output_inserter_is_reported() {
    let mut grid = Vec::new();
    place_machine(&mut grid, "iron-gear-wheel");
    place_inserter(&mut grid, 1, -1, Direction::North);
    match connectivity(&grid) {
        Err(LayoutError::MachineNotConnected { recipe, x, y, missing }) => {
            assert_eq!(recipe, "iron-gear-wheel");
            assert_eq!((x, y), (0, 0));
            assert_eq!(missing, "output");
        }
        other => panic!("expected a missing-output MachineNotConnected, got {other:?}"),
    }
}

#[test]
fn fully_connected_machine_passes() {
    let mut grid = Vec::new();
    place_machine(&mut grid, "iron-gear-wheel");
    place_inserter(&mut grid, 1, -1, Direction::North);
    place_inserter(&mut grid, 1, 3, Direction::North);
    assert!(connectivity(&grid).is_ok());
}

#[test]
fn a_turned_inserter_reaches_sideways() {
    let mut grid = Vec::new();
    place_machine(&mut grid, "iron-gear-wheel");
    // West of the machine facing East: picks up at x = -2, drops into x = 0.
    place_inserter(&mut grid, -1, 1, Direction::East);
    // East of it facing East: picks up from x = 2, drops onto x = 4.
    place_inserter(&mut grid, 3, 1, Direction::East);
    assert!(connectivity(&grid).is_ok());
}

#[test]
fn a_recipe_with_neither_ingredients_nor_results_needs_no_inserters() {
    let mut grid = Vec::new();
    place_machine(&mut grid, "recipe-unknown");
    assert!(connectivity(&grid).is_ok());
}

#[test]
fn an_ingredient_free_recipe_needs_only_an_output() {
    let mut grid = Vec::new();
    place_machine(&mut grid, "biter-egg");
    place_inserter(&mut grid, 1, 3, Direction::North);
    assert!(connectivity(&grid).is_ok());
}

#[test]
fn a_machine_without_a_known_recipe_needs_both_inserters() {
    let mut grid = Vec::new();
    place_machine(&mut grid, "not-in-the-registry");
    place_inserter(&mut grid, 1, -1, Direction::North);
    assert!(matches!(
        connectivity(&grid),
        Err(LayoutError::MachineNotConnected { missing, .. }) if missing == "output"
    ));
}

#[test]
fn a_centrifuge_is_recognised_as_a_machine_needing_connection() {
    let mut grid = Vec::new();
    put(&mut grid, "centrifuge", 0, 0, Direction::North, Some("uranium-processing"));
    match connectivity(&grid) {
        Err(LayoutError::MachineNotConnected { recipe, missing, .. }) => {
            assert_eq!(recipe, "uranium-processing");
            assert_eq!(missing, "input");
        }
        other => panic!("expected MachineNotConnected, got {other:?}"),
    }
}

// ── Overlap ───────────────────────────────────────────────────────────

#[test]
fn a_normally_placed_grid_has_no_overlaps() {
    let mut grid = Vec::new();
    place_machine(&mut grid, "iron-gear-wheel");
    place_inserter(&mut grid, 1, -1, Direction::North);
    assert!(check_no_overlaps(&grid).is_ok());
}

#[test]
fn two_footprints_on_one_tile_are_an_overlap() {
    let mut grid = Vec::new();
    place_machine(&mut grid, "iron-gear-wheel");
    place_inserter(&mut grid, 2, 2, Direction::North);
    assert_eq!(check_no_overlaps(&grid), Err(LayoutError::Overlap { x: 2, y: 2 }));
}

// ── Pole coverage ─────────────────────────────────────────────────────

#[test]
fn unpowered_machine_is_reported() {
    let mut grid = Vec::new();
    place_machine(&mut grid, "iron-gear-wheel");
    match check_pole_coverage(&grid, &protos()) {
        Err(LayoutError::Unpowered { recipe, x, y }) => {
            assert_eq!(recipe, "iron-gear-wheel");
            assert_eq!((x, y), (0, 0));
        }
        other => panic!("expected Unpowered, got {other:?}"),
    }
}

#[test]
fn a_pole_in_reach_covers_the_machine() {
    let mut grid = Vec::new();
    place_machine(&mut grid, "iron-gear-wheel");
    put(&mut grid, "medium-electric-pole", 4, 1, Direction::North, None);
    assert!(check_pole_coverage(&grid, &protos()).is_ok());
}

#[test]
fn a_pole_whose_area_only_grazes_the_machine_does_not_cover_it() {
    let mut grid = Vec::new();
    place_machine(&mut grid, "iron-gear-wheel");
    // small pole at x = 5: its area reaches from 5 + 0.5 - 2.5 = 3 onwards,
    // exactly the machine's right edge.
    put(&mut grid, "small-electric-pole", 5, 1, Direction::North, None);
    assert!(matches!(check_pole_coverage(&grid, &protos()), Err(LayoutError::Unpowered { .. })));
}

#[test]
fn validate_grid_runs_every_hard_check_in_order() {
    let mut grid = Vec::new();
    place_machine(&mut grid, "iron-gear-wheel");
    assert!(matches!(
        validate_grid(&grid, &protos(), &recipes()),
        Err(LayoutError::MachineNotConnected { .. })
    ));
    place_inserter(&mut grid, 1, -1, Direction::North);
    place_inserter(&mut grid, 1, 3, Direction::North);
    assert!(matches!(validate_grid(&grid, &protos(), &recipes()), Err(LayoutError::Unpowered { .. })));
    put(&mut grid, "medium-electric-pole", 4, 1, Direction::North, None);
    assert_eq!(validate_grid(&grid, &protos(), &recipes()), Ok(()));
}

// ── Product belts ─────────────────────────────────────────────────────

#[test]
fn two_filters_on_the_same_belt_run_is_a_named_error() {
    let mut grid = Vec::new();
    place_machine_at(&mut grid, "uranium-processing", 0, 0);
    place_filtered_inserter(&mut grid, 3, 0, Direction::West, "uranium-235");
    place_filtered_inserter(&mut grid, 3, 1, Direction::West, "uranium-238");
    place_belt(&mut grid, 4, 0, Direction::South);
    place_belt(&mut grid, 4, 1, Direction::South);
    match check_no_mixed_product_belts(&grid, &protos()) {
        Err(LayoutError::MixedProductBelt { recipe, items, .. }) => {
            assert_eq!(recipe, "uranium-processing");
            assert!(
                items.contains(&"uranium-235".to_string()) && items.contains(&"uranium-238".to_string()),
                "{items:?}"
            );
        }
        other => panic!("expected MixedProductBelt, got {other:?}"),
    }
}

#[test]
fn two_filters_on_opposite_lanes_of_one_run_is_still_mixed() {
    let mut grid = Vec::new();
    place_machine_at(&mut grid, "uranium-processing", 0, 0);
    place_belt(&mut grid, 4, 0, Direction::South);
    place_belt(&mut grid, 4, 1, Direction::South);
    place_filtered_inserter(&mut grid, 3, 0, Direction::West, "uranium-235");
    place_machine_at(&mut grid, "uranium-processing", 6, 1);
    place_filtered_inserter(&mut grid, 5, 1, Direction::East, "uranium-238");
    match check_no_mixed_product_belts(&grid, &protos()) {
        Err(LayoutError::MixedProductBelt { recipe, items, .. }) => {
            assert_eq!(recipe, "uranium-processing");
            assert_eq!(items, vec!["uranium-235".to_string(), "uranium-238".to_string()]);
        }
        other => panic!("expected MixedProductBelt across the two lanes, got {other:?}"),
    }
}

#[test]
fn distinct_filters_on_distinct_belt_runs_pass() {
    let mut grid = Vec::new();
    place_machine_at(&mut grid, "uranium-processing", 0, 0);
    place_filtered_inserter(&mut grid, 3, 0, Direction::West, "uranium-235");
    place_filtered_inserter(&mut grid, 3, 2, Direction::West, "uranium-238");
    place_belt(&mut grid, 4, 0, Direction::South);
    place_belt(&mut grid, 4, 2, Direction::South);
    assert!(check_no_mixed_product_belts(&grid, &protos()).is_ok());
}

#[test]
fn one_lane_counts_once_no_matter_how_many_inserters_or_tiles_reach_it() {
    let mut grid = Vec::new();
    for i in 0..5 {
        let y = 4 * i;
        place_machine_at(&mut grid, "iron-gear-wheel", 0, y);
        place_inserter(&mut grid, 3, y + 1, Direction::West);
    }
    for y in 0..20 {
        place_belt(&mut grid, 4, y, Direction::South);
    }
    assert_eq!(claimed_lanes(&grid, &protos(), "iron-gear-wheel", true, None), 1);
    assert_eq!(claimed_lanes(&grid, &protos(), "iron-gear-wheel", false, None), 1);
    assert_eq!(claimed_lanes(&grid, &protos(), "iron-gear-wheel", false, Some("iron-gear-wheel")), 0);
}

#[test]
fn a_machine_with_no_output_inserter_claims_nothing() {
    let mut grid = Vec::new();
    place_machine(&mut grid, "iron-gear-wheel");
    assert_eq!(claimed_lanes(&grid, &protos(), "iron-gear-wheel", true, None), 0);
}

#[test]
fn one_products_lanes_are_not_credited_to_the_other() {
    let mut grid = Vec::new();
    place_machine_at(&mut grid, "uranium-processing", 0, 0);
    place_filtered_inserter(&mut grid, 3, 0, Direction::West, "uranium-235");
    place_belt(&mut grid, 4, 0, Direction::South);
    place_filtered_inserter(&mut grid, 3, 2, Direction::West, "uranium-238");
    place_belt(&mut grid, 4, 2, Direction::South);
    let ps = protos();
    assert_eq!(claimed_lanes(&grid, &ps, "uranium-processing", false, Some("uranium-235")), 1);
    assert_eq!(claimed_lanes(&grid, &ps, "uranium-processing", false, Some("uranium-238")), 1);
    assert_eq!(claimed_lanes(&grid, &ps, "uranium-processing", true, None), 2);
    grid.truncate(3);
    assert_eq!(claimed_lanes(&grid, &ps, "uranium-processing", false, Some("uranium-238")), 0);
}

#[test]
fn the_two_lanes_of_one_run_are_counted_apart() {
    let mut grid = Vec::new();
    place_machine_at(&mut grid, "iron-gear-wheel", 0, 0);
    place_belt(&mut grid, 4, 0, Direction::South);
    place_belt(&mut grid, 4, 1, Direction::South);
    place_inserter(&mut grid, 3, 0, Direction::West);
    place_machine_at(&mut grid, "iron-gear-wheel", 6, 1);
    place_inserter(&mut grid, 5, 1, Direction::East);
    assert_eq!(claimed_lanes(&grid, &protos(), "iron-gear-wheel", true, None), 2);
}

// ── Config ────────────────────────────────────────────────────────────

#[test]
fn the_default_config_resolves() {
    let ps = protos();
    let cfg = LayoutConfig::default().resolve(&ps).unwrap();
    assert_eq!(cfg.belt.name, "transport-belt");
    assert_eq!(cfg.pole.name, "medium-electric-pole");
    assert_eq!(cfg.inserter.name, "inserter");
    assert_eq!(cfg.long_inserter.name, "long-handed-inserter");
}

#[test]
fn a_beacon_with_a_supply_area_is_no_pole() {
    let mut beacon = proto("beacon", EntityCategory::Beacon, 3, 3);
    beacon.supply_area_distance = Some(Frac::whole(3));
    let mut belt = proto("express-transport-belt", EntityCategory::Belt, 1, 1);
    belt.belt_throughput = Some(Frac::whole(45));
    let ps = Prototypes::from_prototypes(vec![belt, beacon]);
    assert!(matches!(
        LayoutConfig::new("express-transport-belt", "beacon", "fast-inserter").resolve(&ps),
        Err(LayoutError::PoleUnknown(n)) if n == "beacon"
    ));
}

#[test]
fn config_typos_fail_before_anything_is_placed() {
    let ps = protos();
    assert!(matches!(
        LayoutConfig::new("express-transport-blet", "medium-electric-pole", "fast-inserter").resolve(&ps),
        Err(LayoutError::BeltTierUnknown(n)) if n == "express-transport-blet"
    ));
    assert!(matches!(
        LayoutConfig::new("express-transport-belt", "beacon", "fast-inserter").resolve(&ps),
        Err(LayoutError::PoleUnknown(n)) if n == "beacon"
    ));
    assert!(matches!(
        LayoutConfig::new("express-transport-belt", "medium-electric-pole", "wooden-chest").resolve(&ps),
        Err(LayoutError::InserterUnknown(n)) if n == "wooden-chest"
    ));
}

#[test]
fn a_real_entity_of_the_wrong_kind_is_refused() {
    let ps = protos();
    assert!(matches!(
        LayoutConfig::new("assembling-machine-2", "medium-electric-pole", "fast-inserter").resolve(&ps),
        Err(LayoutError::BeltTierUnknown(_))
    ));
}

#[test]
fn reach_comes_from_the_prototype_not_the_name() {
    let ps = protos();
    let short_as_long = LayoutConfig::new("express-transport-belt", "medium-electric-pole", "fast-inserter")
        .with_long_inserter("fast-inserter")
        .resolve(&ps);
    assert!(matches!(short_as_long, Err(LayoutError::LongInserterUnknown(n)) if n == "fast-inserter"));
    let long_as_short = LayoutConfig::new("express-transport-belt", "medium-electric-pole", "long-handed-inserter")
        .resolve(&ps)
        .unwrap();
    assert_eq!(long_as_short.inserter.name, "long-handed-inserter");
}

// ── Error messages ────────────────────────────────────────────────────

#[test]
fn cyclic_step_names_recipe_and_item() {
    let e = LayoutError::CyclicStep { recipe: "kovarex-enrichment-process".into(), item: "uranium-235".into() };
    let s = e.message();
    assert!(s.contains("kovarex-enrichment-process") && s.contains("uranium-235"), "{s}");
}

#[test]
fn too_many_ingredients_lists_them() {
    let e = LayoutError::TooManyIngredients {
        recipe: "advanced-circuit".into(),
        items: vec!["copper-cable".into(), "electronic-circuit".into(), "plastic-bar".into()],
    };
    let s = e.message();
    assert!(s.contains("advanced-circuit") && s.contains("plastic-bar"), "{s}");
    assert!(s.contains('3'), "the count should be in the message: {s}");
}

#[test]
fn unknown_tiers_name_what_was_asked_for() {
    assert!(LayoutError::BeltTierUnknown("stone-furnace".into()).message().contains("stone-furnace"));
    assert!(LayoutError::PoleUnknown("beacon".into()).message().contains("beacon"));
    assert!(LayoutError::InserterUnknown("chest".into()).message().contains("chest"));
}

#[test]
fn positions_in_messages_keep_their_sign() {
    let s = LayoutError::Overlap { x: -3, y: 12 }.message();
    assert!(s.contains("(-3, 12)"), "{s}");
    let s = LayoutError::Unpowered { recipe: "iron-plate".into(), x: 0, y: -2147483648 }.message();
    assert!(s.contains("(0, -2147483648)"), "{s}");
}

#[test]
fn with_topology_and_with_long_inserter_set_only_their_field() {
    let topo = CellTopology { spine_belts: 1, edge_belts: 2, ingredients_on: Side::Edge, target_width: Some(40) };
    let cfg = LayoutConfig::new("express-transport-belt", "medium-electric-pole", "fast-inserter")
        .with_topology(topo.clone())
        .with_long_inserter("bulk-inserter");
    assert_eq!(cfg.topology, topo);
    assert_eq!(cfg.long_inserter, "bulk-inserter");
    assert_eq!(cfg.belt_tier, "express-transport-belt");
    assert_eq!(cfg.pole, "medium-electric-pole");
    assert_eq!(cfg.inserter, "fast-inserter");
}
