use factorio_solver::layout::cell::{CellPlan, CellTopology, Side};
use factorio_solver::layout::cycles::reject_if_cyclic;
use factorio_solver::layout::geometry::{cell_width, column_height, machine_row_offset, pole_period, x_layout};
use factorio_solver::layout::orient::inserter_direction;
use factorio_solver::layout::sizing::{check_streams, compositions, split_into_cells};
use factorio_solver::layout::LayoutError;
use factorio_solver::prototype::{Direction, EntityCategory, EntityPrototype, Frac};
use factorio_solver::recipe::{ItemKind, Recipe, RecipeItem};

fn stream(name: &str, kind: ItemKind) -> RecipeItem {
    RecipeItem::new(name, kind)
}

fn items(names: &[&str]) -> Vec<RecipeItem> {
    names.iter().map(|n| stream(n, ItemKind::Item)).collect()
}

fn names(ns: &[&str]) -> Vec<String> {
    ns.iter().map(|s| s.to_string()).collect()
}

fn machine(w: u32, h: u32) -> EntityPrototype {
    EntityPrototype {
        name: "assembling-machine-2".to_string(),
        category: EntityCategory::Assembler,
        tile_width: w,
        tile_height: h,
        crafting_categories: vec!["crafting".to_string()],
        crafting_speed: Some(Frac::new(3, 4)),
        belt_throughput: None,
        supply_area_distance: None,
        pickup_position: None,
        insert_position: None,
    }
}

fn inserter(reach: i64) -> EntityPrototype {
    let mut p = machine(1, 1);
    p.name = "fast-inserter".to_string();
    p.category = EntityCategory::Inserter;
    p.crafting_categories = vec![];
    p.crafting_speed = None;
    p.pickup_position = Some((Frac::whole(0), Frac::whole(-reach)));
    p.insert_position = Some((Frac::whole(0), Frac::new(reach * 5 + 1, 5)));
    p
}

// ── Topology ──────────────────────────────────────────────────────────

#[test]
fn the_default_topology_takes_ingredients_on_a_two_belt_spine() {
    let t = CellTopology::default();
    assert_eq!((t.spine_belts, t.edge_belts, t.ingredients_on, t.target_width), (2, 1, Side::Spine, None));
    assert_eq!(t.ingredient_belts(), 2);
    assert_eq!(t.product_belts(), 1);
    assert_eq!(t.ingredient_lanes(), 4);
    let flipped = CellTopology { ingredients_on: Side::Edge, ..CellTopology::default() };
    assert_eq!(flipped.ingredient_belts(), 1);
    assert_eq!(flipped.product_belts(), 2);
    assert_eq!(flipped.ingredient_lanes(), 2);
}

#[test]
fn belt_counts_outside_one_or_two_are_refused_by_field() {
    assert_eq!(CellTopology::default().validate(), Ok(()));
    let t = CellTopology { spine_belts: 0, ..CellTopology::default() };
    assert_eq!(t.validate(), Err(LayoutError::InvalidTopology { field: "spine_belts".into(), value: 0 }));
    let t = CellTopology { edge_belts: 3, ..CellTopology::default() };
    assert_eq!(t.validate(), Err(LayoutError::InvalidTopology { field: "edge_belts".into(), value: 3 }));
    let t = CellTopology { spine_belts: 3, edge_belts: 0, ..CellTopology::default() };
    assert!(matches!(t.validate(), Err(LayoutError::InvalidTopology { field, .. }) if field == "spine_belts"));
}

// ── Lane allocation to belts ──────────────────────────────────────────

fn plan(alloc: &[(&str, u32)]) -> CellPlan {
    CellPlan {
        machines_per_cell: 2,
        columns: (1, 1),
        cells: 1,
        lane_allocation: alloc.iter().map(|(n, l)| (n.to_string(), *l)).collect(),
        bound_by: alloc.first().map(|(n, _)| n.to_string()).unwrap_or_default(),
    }
}

#[test]
fn three_lanes_get_a_whole_belt_and_a_shared_spillover() {
    let p = plan(&[("copper-cable", 3), ("iron-plate", 1)]);
    assert_eq!(p.ingredient_belts("copper-cable"), vec![0, 1]);
    assert_eq!(p.ingredient_belts("iron-plate"), vec![1]);
    assert!(p.ingredient_belts("plastic-bar").is_empty());
}

#[test]
fn whole_belts_come_before_the_shared_ones() {
    let p = plan(&[("a", 1), ("b", 2), ("c", 1)]);
    assert_eq!(p.ingredient_belts("b"), vec![0]);
    assert_eq!(p.ingredient_belts("a"), vec![1]);
    assert_eq!(p.ingredient_belts("c"), vec![1]);
    let p = plan(&[("a", 1), ("b", 1), ("c", 1), ("d", 1)]);
    assert_eq!(p.ingredient_belts("a"), vec![0]);
    assert_eq!(p.ingredient_belts("d"), vec![1]);
}

// ── Sizing ────────────────────────────────────────────────────────────

#[test]
fn compositions_are_complete_and_in_decreasing_order() {
    assert_eq!(compositions(4, 2), vec![vec![3, 1], vec![2, 2], vec![1, 3]]);
    assert_eq!(compositions(4, 1), vec![vec![4]]);
    assert_eq!(compositions(3, 3), vec![vec![1, 1, 1]]);
    assert_eq!(compositions(5, 3).len(), 6);
    assert_eq!(compositions(5, 3)[0], vec![3, 1, 1]);
    assert_eq!(compositions(5, 3)[5], vec![1, 1, 3]);
    assert!(compositions(4, 0).is_empty());
}

#[test]
fn machines_split_into_cells_with_the_extra_one_first() {
    assert_eq!(split_into_cells(10, 4), (3, (2, 2)));
    assert_eq!(split_into_cells(12, 4), (3, (2, 2)));
    assert_eq!(split_into_cells(7, 5), (2, (3, 2)));
    assert_eq!(split_into_cells(0, 3), (0, (2, 1)));
    assert_eq!(split_into_cells(1, 1), (1, (1, 0)));
}

fn circuit() -> Recipe {
    Recipe::new(
        "electronic-circuit",
        "electronics",
        items(&["iron-plate", "copper-cable"]),
        items(&["electronic-circuit"]),
    )
}

#[test]
fn a_plain_step_passes_the_stream_checks() {
    let topo = CellTopology::default();
    let r = circuit();
    assert_eq!(
        check_streams(&r, &names(&["iron-plate", "copper-cable"]), &names(&["electronic-circuit"]), &topo),
        Ok(())
    );
}

#[test]
fn a_fluid_is_refused_rather_than_belted() {
    let topo = CellTopology::default();
    let mut r = circuit();
    r.name = "plastic-bar".to_string();
    r.ingredients = vec![stream("petroleum-gas", ItemKind::Fluid), stream("coal", ItemKind::Item)];
    r.results = items(&["plastic-bar"]);
    assert_eq!(
        check_streams(&r, &names(&["petroleum-gas", "coal"]), &names(&["plastic-bar"]), &topo),
        Err(LayoutError::FluidOnBelt { recipe: "plastic-bar".into(), item: "petroleum-gas".into() })
    );
    let mut heavy = circuit();
    heavy.name = "advanced-oil-processing".to_string();
    heavy.ingredients = items(&["crude-oil-barrel"]);
    heavy.results = vec![stream("heavy-oil", ItemKind::Fluid)];
    assert_eq!(
        check_streams(&heavy, &names(&["crude-oil-barrel"]), &names(&["heavy-oil"]), &topo),
        Err(LayoutError::FluidOnBelt { recipe: "advanced-oil-processing".into(), item: "heavy-oil".into() })
    );
}

#[test]
fn a_fluid_that_is_not_carried_is_no_refusal() {
    let topo = CellTopology::default();
    let mut r = circuit();
    r.ingredients.push(stream("water", ItemKind::Fluid));
    assert_eq!(
        check_streams(&r, &names(&["iron-plate", "copper-cable"]), &names(&["electronic-circuit"]), &topo),
        Ok(())
    );
}

#[test]
fn two_products_on_one_cell_are_refused() {
    let topo = CellTopology::default();
    let mut r = circuit();
    r.name = "uranium-processing".to_string();
    r.ingredients = items(&["uranium-ore"]);
    r.results = items(&["uranium-235", "uranium-238"]);
    assert_eq!(
        check_streams(&r, &names(&["uranium-ore"]), &names(&["uranium-235", "uranium-238"]), &topo),
        Err(LayoutError::MultipleProducts {
            recipe: "uranium-processing".into(),
            products: names(&["uranium-235", "uranium-238"]),
        })
    );
}

#[test]
fn more_ingredients_than_lanes_are_refused() {
    let topo = CellTopology { ingredients_on: Side::Edge, ..CellTopology::default() };
    let mut r = circuit();
    r.name = "advanced-circuit".to_string();
    r.ingredients = items(&["copper-cable", "electronic-circuit", "plastic-bar"]);
    r.results = items(&["advanced-circuit"]);
    assert_eq!(
        check_streams(
            &r,
            &names(&["copper-cable", "electronic-circuit", "plastic-bar"]),
            &names(&["advanced-circuit"]),
            &topo
        ),
        Err(LayoutError::TooManyIngredientsForLanes {
            recipe: "advanced-circuit".into(),
            ingredients: names(&["copper-cable", "electronic-circuit", "plastic-bar"]),
            lanes: 2,
        })
    );
}

#[test]
fn a_bad_topology_is_refused_before_the_streams_are_read() {
    let topo = CellTopology { edge_belts: 0, ..CellTopology::default() };
    assert!(matches!(
        check_streams(&circuit(), &names(&["iron-plate"]), &names(&["electronic-circuit"]), &topo),
        Err(LayoutError::InvalidTopology { .. })
    ));
}

// ── Self-loops ────────────────────────────────────────────────────────

#[test]
fn cyclic_step_is_rejected_by_name() {
    let kovarex = Recipe::new(
        "kovarex-enrichment-process",
        "centrifuging",
        items(&["uranium-235", "uranium-238"]),
        items(&["uranium-235", "uranium-238"]),
    );
    assert_eq!(
        reject_if_cyclic(&kovarex),
        Err(LayoutError::CyclicStep { recipe: "kovarex-enrichment-process".into(), item: "uranium-235".into() })
    );
}

#[test]
fn a_multi_output_step_is_not_mistaken_for_a_cycle() {
    let processing = Recipe::new(
        "uranium-processing",
        "centrifuging",
        items(&["uranium-ore"]),
        items(&["uranium-235", "uranium-238"]),
    );
    assert_eq!(processing.results.len(), 2, "it really is multi-output");
    assert!(reject_if_cyclic(&processing).is_ok());
    assert!(reject_if_cyclic(&circuit()).is_ok());
}

// ── Geometry ──────────────────────────────────────────────────────────

#[test]
fn the_x_layout_mirrors_column_a_in_column_b() {
    let topo = CellTopology::default();
    let l = x_layout(3, &topo, true);
    assert_eq!(
        (l.gutter_a_left, l.col_a_x0, l.gutter_a_right, l.spine_x0),
        (1, 2, 5, 6)
    );
    assert_eq!((l.gutter_b_left, l.col_b_x0, l.gutter_b_right, l.right_edge_x0, l.width), (8, 9, 12, 13, 14));
    let shared = x_layout(3, &topo, false);
    assert_eq!(shared.gutter_a_left, 0);
    assert_eq!(shared.width, 13);
}

#[test]
fn cell_width_predicts_the_x_layout() {
    let topo = CellTopology { spine_belts: 1, edge_belts: 2, ..CellTopology::default() };
    for w in [2, 3, 5] {
        let m = machine(w, 3);
        assert_eq!(cell_width(&m, &topo, true) as i32, x_layout(w, &topo, true).width);
        assert_eq!(cell_width(&m, &topo, false) as i32, x_layout(w, &topo, false).width);
    }
    assert_eq!(cell_width(&machine(3, 3), &topo, true), 2 + 6 + 1 + 2 + 4);
}

#[test]
fn reserved_rows_come_before_each_group_of_machines() {
    let period = pole_period(Frac::new(7, 2), 3);
    assert_eq!(period, 2);
    let rows: Vec<u64> = (0..5).map(|i| machine_row_offset(i, 3, period)).collect();
    assert_eq!(rows, vec![1, 4, 8, 11, 15]);
    assert_eq!(column_height(5, 3, period), 18);
    assert_eq!(column_height(0, 3, period), 0);
}

#[test]
fn the_pole_period_never_drops_below_one() {
    assert_eq!(pole_period(Frac::new(5, 2), 3), 1, "2 * floor(2.5) / 3 rounds down to zero");
    assert_eq!(pole_period(Frac::new(-1, 2), 3), 1);
    assert_eq!(pole_period(Frac::whole(9), 2), 9);
    assert_eq!(pole_period(Frac::whole(i64::MAX), 1), u32::MAX);
}

// ── Inserter facing ───────────────────────────────────────────────────

#[test]
fn an_inserter_faces_the_way_that_lands_both_ends() {
    let fast = inserter(1);
    assert_eq!(inserter_direction(&fast, (0, -1), (0, 1)), Ok(Direction::North));
    assert_eq!(inserter_direction(&fast, (1, 0), (-1, 0)), Ok(Direction::East));
    assert_eq!(inserter_direction(&fast, (0, 1), (0, -1)), Ok(Direction::South));
    assert_eq!(inserter_direction(&fast, (-1, 0), (1, 0)), Ok(Direction::West));
    let long = inserter(2);
    assert_eq!(inserter_direction(&long, (2, 0), (-2, 0)), Ok(Direction::East));
}

#[test]
fn an_unreachable_pair_of_cells_is_refused_by_name() {
    let fast = inserter(1);
    assert_eq!(
        inserter_direction(&fast, (2, 0), (-2, 0)),
        Err(LayoutError::InserterUnknown("fast-inserter".into()))
    );
    assert!(inserter_direction(&machine(3, 3), (0, -1), (0, 1)).is_err(), "a machine has no arm");
}
