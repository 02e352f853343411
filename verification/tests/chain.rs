use factorio_solver::availability::Availability;
use factorio_solver::chain::goal::{ChainGoal, MachineFallback, MachinePolicy};
use factorio_solver::chain::order::topologically_order;
use factorio_solver::chain::select::{available_candidates_for, candidates_for, select_machine, select_recipe};
use factorio_solver::chain::solve::{check_goal, route_item, GoalStart, Route};
use factorio_solver::chain::ChainError;
use factorio_solver::names::NameMap;
use factorio_solver::prototype::{EntityCategory, EntityPrototype, Frac, Prototypes};
use factorio_solver::recipe::{ItemKind, Recipe, RecipeItem, RecipeRegistry};
use factorio_solver::registry::Registry;
use factorio_solver::tech::{TechRegistry, Technology};

// ── Fixture: a slice of the game data ─────────────────────────────────

fn stream(name: &str) -> RecipeItem {
    if name.starts_with("molten-") || name == "petroleum-gas" || name == "water" {
        RecipeItem::new(name, ItemKind::Fluid)
    } else {
        RecipeItem::new(name, ItemKind::Item)
    }
}

fn recipe(name: &str, category: &str, ingredients: &[&str], results: &[&str], enabled: bool) -> Recipe {
    let mut r = Recipe::new(
        name,
        category,
        ingredients.iter().map(|n| stream(n)).collect(),
        results.iter().map(|n| stream(n)).collect(),
    );
    r.enabled = enabled;
    r
}

fn hidden(mut r: Recipe) -> Recipe {
    r.hidden = true;
    r
}

fn with_main_product(mut r: Recipe, product: &str) -> Recipe {
    r.main_product = Some(product.to_string());
    r
}

const NEVER_UNLOCKABLE: [&str; 8] = [
    "loader",
    "fast-loader",
    "express-loader",
    "turbo-loader",
    "infinity-chest",
    "infinity-pipe",
    "heat-interface",
    "pistol",
];

fn recipes() -> RecipeRegistry {
    let mut rs = vec![
        recipe("iron-plate", "smelting", &["iron-ore"], &["iron-plate"], true),
        recipe("copper-plate", "smelting", &["copper-ore"], &["copper-plate"], true),
        recipe("iron-gear-wheel", "crafting", &["iron-plate"], &["iron-gear-wheel"], true),
        recipe("pipe", "crafting", &["iron-plate"], &["pipe"], true),
        recipe("copper-cable", "crafting", &["copper-plate"], &["copper-cable"], true),
        recipe("casting-copper-cable", "metallurgy", &["molten-copper"], &["copper-cable"], false),
        recipe("electronic-circuit", "electronics", &["iron-plate", "copper-cable"], &["electronic-circuit"], true),
        recipe("casting-iron", "metallurgy", &["molten-iron"], &["iron-plate"], false),
        with_main_product(
            recipe("molten-iron", "metallurgy", &["iron-ore", "calcite"], &["molten-iron"], false),
            "molten-iron",
        ),
        recipe("plastic-bar", "chemistry", &["petroleum-gas", "coal"], &["plastic-bar"], false),
        recipe("uranium-processing", "centrifuging", &["uranium-ore"], &["uranium-235", "uranium-238"], false),
        with_main_product(
            recipe("copper-bacteria", "organic", &["copper-bacteria"], &["copper-bacteria", "spoilage"], false),
            "copper-bacteria",
        ),
        hidden(recipe(
            "scrap-recycling",
            "recycling-or-hand-crafting",
            &["scrap"],
            &["iron-plate", "iron-gear-wheel"],
            true,
        )),
        recipe("assembling-machine-1", "crafting", &["iron-gear-wheel"], &["assembling-machine-1"], false),
        recipe("assembling-machine-2", "crafting", &["assembling-machine-1"], &["assembling-machine-2"], false),
        recipe("assembling-machine-3", "crafting", &["assembling-machine-2"], &["assembling-machine-3"], false),
        hidden(recipe(
            "assembling-machine-2-recycling",
            "recycling",
            &["assembling-machine-2"],
            &["assembling-machine-1", "iron-gear-wheel"],
            true,
        )),
        recipe("electromagnetic-plant", "crafting", &["holmium-plate"], &["electromagnetic-plant"], false),
        recipe("foundry", "crafting", &["iron-plate"], &["foundry"], false),
        recipe("stone-furnace", "crafting", &["stone"], &["stone-furnace"], true),
    ];
    for name in NEVER_UNLOCKABLE {
        rs.push(hidden(recipe(name, "crafting", &["iron-plate"], &[name], false)));
    }
    Registry::from_entries(rs)
}

fn tech(name: &str, unlocks: &[&str]) -> Technology {
    Technology {
        name: name.to_string(),
        display_name: None,
        prerequisites: vec![],
        unlocks: unlocks.iter().map(|s| s.to_string()).collect(),
    }
}

fn techs() -> TechRegistry {
    Registry::from_entries(vec![
        tech("automation", &["assembling-machine-1"]),
        tech("automation-2", &["assembling-machine-2"]),
        tech("automation-3", &["assembling-machine-3"]),
        tech("foundry", &["foundry", "casting-iron", "casting-copper-cable", "molten-iron"]),
        tech("plastics", &["plastic-bar"]),
        tech("uranium-processing", &["uranium-processing"]),
        tech("electromagnetic-plant", &["electromagnetic-plant"]),
        tech("agriculture", &["copper-bacteria"]),
        tech("electronics", &[]),
    ])
}

fn machine(name: &str, size: u32, categories: &[&str], speed: Frac) -> EntityPrototype {
    EntityPrototype {
        name: name.to_string(),
        category: EntityCategory::Assembler,
        tile_width: size,
        tile_height: size,
        crafting_categories: categories.iter().map(|s| s.to_string()).collect(),
        crafting_speed: Some(speed),
        belt_throughput: None,
        supply_area_distance: None,
        pickup_position: None,
        insert_position: None,
    }
}

fn prototypes() -> Prototypes {
    Prototypes::from_prototypes(vec![
        machine("assembling-machine-1", 3, &["crafting", "basic-crafting"], Frac::new(1, 2)),
        machine("assembling-machine-2", 3, &["crafting", "electronics", "basic-crafting"], Frac::new(3, 4)),
        machine("assembling-machine-3", 3, &["crafting", "electronics", "basic-crafting"], Frac::new(5, 4)),
        machine("electromagnetic-plant", 4, &["electronics", "electromagnetics"], Frac::new(2, 1)),
        machine("stone-furnace", 2, &["smelting"], Frac::new(1, 1)),
        machine("foundry", 5, &["metallurgy"], Frac::new(4, 1)),
        machine("centrifuge", 3, &["centrifuging"], Frac::new(1, 1)),
    ])
}

fn unlocked(names: &[&str]) -> Availability {
    Availability::unlocked(names.iter().map(|n| n.to_string()).collect())
}

fn names(rs: &[&Recipe]) -> Vec<String> {
    rs.iter().map(|r| r.name.clone()).collect()
}

fn overrides(pairs: &[(&str, &str)]) -> NameMap {
    let mut m = NameMap::new();
    for (k, v) in pairs {
        m.insert(k.to_string(), v.to_string());
    }
    m
}

fn pick_recipe(item: &str, o: &NameMap, a: &Availability) -> Result<String, ChainError> {
    let rs = recipes();
    select_recipe(item, o, a, &rs, &techs()).map(|r| r.name.clone())
}

fn pick_machine(recipe_name: &str, policy: &MachinePolicy, a: &Availability) -> Result<String, ChainError> {
    let rs = recipes();
    let ps = prototypes();
    let r = rs.get(recipe_name).expect("recipe exists");
    select_machine(r, policy, a, &ps, &rs, &techs()).map(|p| p.name.clone())
}

// ── Error messages ────────────────────────────────────────────────────

#[test]
fn fluid_error_names_recipe_fluid_and_remedy() {
    let msg = ChainError::FluidIngredient { recipe: "plastic-bar".into(), fluid: "petroleum-gas".into() }
        .message();
    assert!(msg.contains("plastic-bar"), "{msg}");
    assert!(msg.contains("petroleum-gas"), "{msg}");
    assert!(msg.contains("available"), "must state the fix: {msg}");
}

#[test]
fn ambiguous_error_lists_every_candidate() {
    let msg = ChainError::AmbiguousRecipe {
        item: "copper-cable".into(),
        candidates: vec!["copper-cable".into(), "casting-copper-cable".into()],
    }
    .message();
    assert!(msg.contains("copper-cable") && msg.contains("casting-copper-cable"), "{msg}");
    assert!(msg.contains("override"), "must state the fix: {msg}");
}

#[test]
fn not_unlocked_error_names_item_technology_and_both_remedies() {
    let msg = ChainError::NotUnlocked {
        item: "copper-cable".into(),
        unlocked_by: vec!["electronics".into(), "foundry".into()],
    }
    .message();
    assert!(msg.contains("copper-cable"), "{msg}");
    assert!(msg.contains("electronics") && msg.contains("foundry"), "{msg}");
    assert!(msg.contains("research"), "must state the research remedy: {msg}");
    assert!(msg.contains("available-recipes list"), "must state the tick-it remedy: {msg}");
}

#[test]
fn not_unlocked_error_with_no_unlockers_still_reads_as_a_sentence() {
    let msg = ChainError::NotUnlocked { item: "loader".into(), unlocked_by: vec![] }.message();
    assert!(msg.contains("loader"), "{msg}");
    assert!(!msg.contains("research it"), "no technology exists to research: {msg}");
    assert!(msg.contains("no technology unlocks it"), "{msg}");
    assert!(msg.contains("available-recipes list"), "must still state a remedy: {msg}");
}

#[test]
fn machine_not_unlocked_error_names_machine_and_technology() {
    let msg = ChainError::MachineNotUnlocked {
        machine: "electromagnetic-plant".into(),
        unlocked_by: vec!["electromagnetic-plant".into()],
    }
    .message();
    assert!(msg.contains("electromagnetic-plant"), "{msg}");
    assert!(msg.contains("research"), "must state the remedy: {msg}");
}

#[test]
fn no_machine_error_names_category_and_recipe() {
    let msg =
        ChainError::NoMachineForCategory { category: "chemistry".into(), recipe: "sulfur".into() }.message();
    assert!(msg.contains("chemistry") && msg.contains("sulfur"), "{msg}");
}

#[test]
fn belt_tier_error_suggests_real_belt_names() {
    let msg = ChainError::UnknownBeltTier("not-a-belt".into()).message();
    assert!(msg.contains("not-a-belt") && msg.contains("express-transport-belt"), "{msg}");
}

#[test]
fn mod_errors_display_actionably() {
    let e = ChainError::FluidIngredient { recipe: "plastic-bar".into(), fluid: "petroleum-gas".into() };
    let s = e.message();
    assert!(s.contains("plastic-bar") && s.contains("petroleum-gas"), "{s}");
}

#[test]
fn tests_errors_display_actionably() {
    let e = ChainError::FluidIngredient { recipe: "plastic-bar".into(), fluid: "petroleum-gas".into() };
    let s = e.message();
    assert!(s.contains("plastic-bar") && s.contains("petroleum-gas"), "{s}");
}

#[test]
fn the_convergence_error_states_the_iteration_count() {
    let msg = ChainError::DidNotConverge { product: "uranium-235".into(), iterations: 120 }.message();
    assert!(msg.contains("uranium-235") && msg.contains("120"), "{msg}");
}

#[test]
fn every_refusal_names_its_subject() {
    let cases = [
        (ChainError::UnknownItem("widget".into()), "widget"),
        (ChainError::UnreachableBoundary { item: "iron-ore".into() }, "iron-ore"),
        (ChainError::UnknownMachine { machine: "not-a-machine".into() }, "not-a-machine"),
        (
            ChainError::RecipeLocked {
                item: "copper-cable".into(),
                unlocked_by: vec!["foundry".into()],
                recipes: vec!["casting-copper-cable".into()],
            },
            "casting-copper-cable",
        ),
        (
            ChainError::MachineLocked {
                machine: "foundry".into(),
                recipe: "casting-iron".into(),
                unlocked_by: vec!["foundry".into()],
            },
            "casting-iron",
        ),
    ];
    for (e, subject) in cases {
        let msg = e.message();
        assert!(msg.contains(subject), "{msg}");
    }
}

// ── Machine policy and goal builders ──────────────────────────────────

#[test]
fn mod_machine_policy_constructors() {
    assert_eq!(MachinePolicy::fastest().fallback, MachineFallback::FastestAvailable);
    assert_eq!(
        MachinePolicy::all("assembling-machine-2").fallback,
        MachineFallback::Named("assembling-machine-2".into())
    );
    let p = MachinePolicy::fastest().with_preference("electronics", "assembling-machine-2");
    assert_eq!(p.preferred.get("electronics").unwrap(), "assembling-machine-2");
}

#[test]
fn tests_machine_policy_constructors() {
    assert_eq!(MachinePolicy::fastest().fallback, MachineFallback::FastestAvailable);
    assert_eq!(
        MachinePolicy::all("assembling-machine-2").fallback,
        MachineFallback::Named("assembling-machine-2".into())
    );
    let p = MachinePolicy::fastest().with_preference("electronics", "assembling-machine-2");
    assert_eq!(p.preferred.get("electronics").unwrap(), "assembling-machine-2");
}

#[test]
fn goal_builders_populate_the_boundary() {
    let g = ChainGoal::new("electronic-circuit", vec!["iron-plate".to_string()])
        .with_override("copper-cable", "copper-cable");
    assert!(g.available.contains("iron-plate"));
    assert_eq!(g.recipe_overrides.get("copper-cable").unwrap(), "copper-cable");
    assert_eq!(g.availability, Availability::Everything);
}

#[test]
fn with_availability_sets_the_field() {
    let a = unlocked(&["iron-plate"]);
    let g = ChainGoal::new("iron-plate", vec![]).with_availability(a.clone());
    assert_eq!(g.availability, a);
}

#[test]
fn a_later_preference_for_the_same_category_replaces_the_earlier() {
    let p = MachinePolicy::fastest()
        .with_preference("electronics", "assembling-machine-2")
        .with_preference("electronics", "assembling-machine-3");
    assert_eq!(p.preferred.get("electronics").unwrap(), "assembling-machine-3");
    assert!(p.preferred.get("crafting").is_none());
}

// ── Recipe selection ──────────────────────────────────────────────────

#[test]
fn single_result_recipe_resolves_without_override() {
    let r = pick_recipe("electronic-circuit", &NameMap::new(), &Availability::Everything).expect("resolves");
    assert_eq!(r, "electronic-circuit");
}

#[test]
fn copper_cable_is_ambiguous_and_errors_with_candidates() {
    let rs = recipes();
    let names = names(&candidates_for("copper-cable", &rs));
    assert!(names.contains(&"copper-cable".to_string()), "{names:?}");
    assert!(names.contains(&"casting-copper-cable".to_string()), "{names:?}");
    assert_eq!(names.len(), 2, "a 3rd means the scrap-recycling filter regressed: {names:?}");

    match pick_recipe("copper-cable", &NameMap::new(), &Availability::Everything) {
        Err(ChainError::AmbiguousRecipe { item, candidates }) => {
            assert_eq!(item, "copper-cable");
            assert!(candidates.contains(&"copper-cable".to_string()));
            assert!(candidates.contains(&"casting-copper-cable".to_string()));
        }
        other => panic!("expected AmbiguousRecipe, got {other:?}"),
    }
}

#[test]
fn override_resolves_ambiguity() {
    let o = overrides(&[("copper-cable", "copper-cable")]);
    let r = pick_recipe("copper-cable", &o, &Availability::Everything).expect("resolves via override");
    assert_eq!(r, "copper-cable");
}

#[test]
fn override_naming_a_nonexistent_recipe_errors() {
    let o = overrides(&[("copper-cable", "not-a-real-recipe")]);
    assert!(matches!(
        pick_recipe("copper-cable", &o, &Availability::Everything),
        Err(ChainError::UnknownItem(name)) if name == "not-a-real-recipe"
    ));
}

#[test]
fn an_override_wins_even_when_its_recipe_is_locked() {
    let o = overrides(&[("copper-cable", "casting-copper-cable")]);
    let r = pick_recipe("copper-cable", &o, &unlocked(&[])).expect("an explicit override bypasses availability");
    assert_eq!(r, "casting-copper-cable");
}

#[test]
fn availability_narrows_ambiguity_to_the_one_buildable_recipe() {
    // casting-copper-cable is research-locked; copper-cable is a starting recipe.
    let r = pick_recipe("copper-cable", &NameMap::new(), &unlocked(&[])).expect("one producer remains");
    assert_eq!(r, "copper-cable");
}

#[test]
fn every_producer_locked_is_a_locked_refusal_naming_them() {
    match pick_recipe("uranium-235", &NameMap::new(), &unlocked(&[])) {
        Err(ChainError::RecipeLocked { item, unlocked_by, recipes }) => {
            assert_eq!(item, "uranium-235");
            assert_eq!(recipes, vec!["uranium-processing".to_string()]);
            assert_eq!(unlocked_by, vec!["uranium-processing".to_string()]);
        }
        other => panic!("expected RecipeLocked, got {other:?}"),
    }
}

#[test]
fn an_item_nothing_produces_is_an_unreachable_boundary() {
    assert_eq!(
        pick_recipe("iron-ore", &NameMap::new(), &Availability::Everything),
        Err(ChainError::UnreachableBoundary { item: "iron-ore".to_string() })
    );
}

#[test]
fn recycling_recipes_are_never_candidates() {
    let rs = recipes();
    let candidates = candidates_for("iron-plate", &rs);
    assert!(candidates.iter().all(|r| !r.category.starts_with("recycling")));
    assert!(
        !candidates.iter().any(|r| r.name == "scrap-recycling"),
        "scrap-recycling is category 'recycling-or-hand-crafting', which an \
         exact-equality filter would miss"
    );
}

#[test]
fn research_locked_recipes_are_still_candidates() {
    let rs = recipes();
    assert!(
        candidates_for("uranium-235", &rs).iter().any(|r| r.name == "uranium-processing"),
        "enabled:false must not exclude a recipe from being a candidate"
    );
}

#[test]
fn multi_output_recipe_produces_all_its_outputs() {
    let rs = recipes();
    assert!(candidates_for("uranium-235", &rs).iter().any(|r| r.name == "uranium-processing"));
    assert!(candidates_for("uranium-238", &rs).iter().any(|r| r.name == "uranium-processing"));
}

#[test]
fn declared_main_product_demotes_the_other_results() {
    let rs = recipes();
    let cb = rs.get("copper-bacteria").expect("copper-bacteria exists");
    assert!(cb.results.iter().any(|res| res.name == "spoilage"), "test assumption");
    assert!(candidates_for("copper-bacteria", &rs).iter().any(|r| r.name == "copper-bacteria"));
    assert!(
        !candidates_for("spoilage", &rs).iter().any(|r| r.name == "copper-bacteria"),
        "main_product demotes spoilage as copper-bacteria's product"
    );
}

#[test]
fn candidate_order_is_deterministic() {
    let rs = recipes();
    let a = names(&candidates_for("copper-cable", &rs));
    let b = names(&candidates_for("copper-cable", &rs));
    assert_eq!(a, b);
    assert_eq!(a, vec!["casting-copper-cable".to_string(), "copper-cable".to_string()]);
}

#[test]
fn available_candidates_for_is_a_subset_of_candidates_for() {
    let rs = recipes();
    let ts = techs();
    let restrictive = unlocked(&["electronic-circuit"]);
    for item in ["copper-cable", "iron-plate", "iron-gear-wheel", "pipe", "uranium-235"] {
        let all = names(&candidates_for(item, &rs));
        for availability in [&restrictive, &Availability::Everything] {
            let gated = names(&available_candidates_for(item, availability, &rs, &ts));
            assert!(
                gated.iter().all(|n| all.contains(n)),
                "{item} under {availability:?}: {gated:?} not a subset of {all:?}"
            );
        }
    }
}

#[test]
fn the_never_unlockable_recipes_were_already_out_of_the_candidate_set() {
    let rs = recipes();
    let ts = techs();
    let never_unlockable: Vec<&Recipe> =
        rs.entries().iter().filter(|r| !Availability::Everything.allows(r, &ts)).collect();
    assert_eq!(never_unlockable.len(), 8, "the closed set of unreachable recipes");
    for r in never_unlockable {
        assert!(r.hidden, "{} is not hidden, so this test's premise has moved", r.name);
        for result in &r.results {
            assert!(
                candidates_for(&result.name, &rs).iter().all(|c| c.name != r.name),
                "{} reached the candidate set for {}",
                r.name,
                result.name
            );
            assert!(available_candidates_for(&result.name, &Availability::Everything, &rs, &ts)
                .iter()
                .all(|c| c.name != r.name));
        }
    }
}

// ── Machine selection ─────────────────────────────────────────────────

#[test]
fn machine_selection_matches_crafting_category() {
    let rs = recipes();
    assert_eq!(rs.get("electronic-circuit").unwrap().category, "electronics");
    let m = pick_machine("electronic-circuit", &MachinePolicy::fastest(), &Availability::Everything)
        .expect("selects a machine");
    assert_eq!(m, "electromagnetic-plant");
}

#[test]
fn named_fallback_is_used_when_it_covers_the_category() {
    let m = pick_machine(
        "electronic-circuit",
        &MachinePolicy::all("assembling-machine-2"),
        &Availability::Everything,
    )
    .expect("selects a machine");
    assert_eq!(m, "assembling-machine-2");
}

#[test]
fn named_machine_that_cannot_craft_the_category_errors() {
    match pick_machine("electronic-circuit", &MachinePolicy::all("stone-furnace"), &Availability::Everything) {
        Err(ChainError::NoMachineForCategory { category, recipe }) => {
            assert_eq!(category, "electronics");
            assert_eq!(recipe, "electronic-circuit");
        }
        other => panic!("expected NoMachineForCategory, got {other:?}"),
    }
}

#[test]
fn preferred_category_beats_the_fallback() {
    let policy = MachinePolicy::all("assembling-machine-2").with_preference("electronics", "assembling-machine-3");
    let m = pick_machine("electronic-circuit", &policy, &Availability::Everything).expect("selects a machine");
    assert_eq!(m, "assembling-machine-3");
}

#[test]
fn unknown_machine_name_errors() {
    assert!(matches!(
        pick_machine("electronic-circuit", &MachinePolicy::all("not-a-machine"), &Availability::Everything),
        Err(ChainError::UnknownMachine { machine }) if machine == "not-a-machine"
    ));
}

#[test]
fn fastest_policy_falls_back_past_a_locked_machine() {
    let a = unlocked(&["assembling-machine-1", "assembling-machine-2"]);
    let m = pick_machine("electronic-circuit", &MachinePolicy::fastest(), &a).unwrap();
    assert_eq!(m, "assembling-machine-2");
}

#[test]
fn named_locked_machine_errors_rather_than_downgrading() {
    let a = unlocked(&["assembling-machine-1"]);
    match pick_machine("electronic-circuit", &MachinePolicy::all("assembling-machine-3"), &a) {
        Err(ChainError::MachineLocked { machine, recipe, .. }) => {
            assert_eq!(machine, "assembling-machine-3");
            assert_eq!(recipe, "electronic-circuit");
        }
        other => panic!("expected MachineLocked, got {other:?}"),
    }
}

#[test]
fn preferred_category_locked_machine_errors_the_same_as_a_named_fallback() {
    let policy = MachinePolicy::all("assembling-machine-2").with_preference("electronics", "assembling-machine-3");
    let a = unlocked(&["assembling-machine-2"]);
    match pick_machine("electronic-circuit", &policy, &a) {
        Err(ChainError::MachineLocked { machine, .. }) => assert_eq!(machine, "assembling-machine-3"),
        other => panic!("expected MachineLocked, got {other:?}"),
    }
}

#[test]
fn every_machine_for_a_category_locked_names_the_fastest_one() {
    let rs = recipes();
    assert_eq!(rs.get("casting-iron").unwrap().category, "metallurgy");
    match pick_machine("casting-iron", &MachinePolicy::fastest(), &unlocked(&[])) {
        Err(ChainError::MachineLocked { machine, unlocked_by, .. }) => {
            assert_eq!(machine, "foundry");
            assert_eq!(unlocked_by, vec!["foundry".to_string()]);
        }
        other => panic!("expected MachineLocked naming foundry, got {other:?}"),
    }
}

#[test]
fn a_category_no_machine_covers_is_refused_by_name() {
    match pick_machine("plastic-bar", &MachinePolicy::fastest(), &Availability::Everything) {
        Err(ChainError::NoMachineForCategory { category, recipe }) => {
            assert_eq!(category, "chemistry");
            assert_eq!(recipe, "plastic-bar");
        }
        other => panic!("expected NoMachineForCategory, got {other:?}"),
    }
}

// ── Goal checks and routing ───────────────────────────────────────────

#[test]
fn a_goal_already_on_the_bus_builds_nothing() {
    let g = ChainGoal::new("iron-plate", vec!["iron-plate".to_string()]);
    assert_eq!(check_goal(&g, &recipes(), &techs()), Ok(GoalStart::OnBus));
}

#[test]
fn a_raw_resource_goal_is_unreachable() {
    let g = ChainGoal::new("iron-ore", vec![]);
    assert_eq!(
        check_goal(&g, &recipes(), &techs()),
        Err(ChainError::UnreachableBoundary { item: "iron-ore".to_string() })
    );
}

#[test]
fn the_locked_goal_names_its_technology() {
    let g = ChainGoal::new("uranium-235", vec![]).with_availability(unlocked(&[]));
    match check_goal(&g, &recipes(), &techs()) {
        Err(ChainError::RecipeLocked { item, unlocked_by, recipes }) => {
            assert_eq!(item, "uranium-235");
            assert_eq!(unlocked_by, vec!["uranium-processing".to_string()]);
            assert_eq!(recipes, vec!["uranium-processing".to_string()]);
        }
        other => panic!("expected RecipeLocked, got {other:?}"),
    }
}

#[test]
fn a_craftable_goal_is_resolved() {
    let g = ChainGoal::new("electronic-circuit", vec![]);
    assert_eq!(check_goal(&g, &recipes(), &techs()), Ok(GoalStart::Resolve));
}

#[test]
fn a_genuinely_raw_item_routes_to_the_bus() {
    let rs = recipes();
    let g = ChainGoal::new("electronic-circuit", vec![]);
    assert!(matches!(route_item(&g, "iron-ore", &rs, &techs()), Ok(Route::Raw)));
}

#[test]
fn a_locked_intermediate_errors_instead_of_becoming_a_bus_input() {
    let rs = recipes();
    let g = ChainGoal::new("fuel", vec![]).with_availability(unlocked(&[]));
    match route_item(&g, "uranium-238", &rs, &techs()) {
        Err(ChainError::RecipeLocked { item, .. }) => assert_eq!(item, "uranium-238"),
        Ok(_) => panic!("expected RecipeLocked, got a route"),
        Err(other) => panic!("expected RecipeLocked, got {other:?}"),
    }
}

#[test]
fn an_explicit_override_to_a_locked_recipe_is_still_honoured() {
    let rs = recipes();
    let g = ChainGoal::new("electronic-circuit", vec!["molten-copper".to_string()])
        .with_availability(unlocked(&[]))
        .with_override("copper-cable", "casting-copper-cable");
    match route_item(&g, "copper-cable", &rs, &techs()) {
        Ok(Route::Craft(r)) => assert_eq!(r.name, "casting-copper-cable"),
        Ok(Route::Raw) => panic!("expected a recipe, got a raw input"),
        Err(e) => panic!("expected a recipe, got {e:?}"),
    }
}

#[test]
fn fluid_ingredient_is_rejected_with_named_error() {
    let rs = recipes();
    let g = ChainGoal::new("plastic-bar", vec!["coal".to_string()]);
    assert_eq!(
        route_item(&g, "plastic-bar", &rs, &techs()).map(|_| ()),
        Err(ChainError::FluidIngredient { recipe: "plastic-bar".into(), fluid: "petroleum-gas".into() })
    );
}

#[test]
fn declaring_the_fluid_available_succeeds() {
    let rs = recipes();
    let g = ChainGoal::new("plastic-bar", vec!["petroleum-gas".to_string()]);
    match route_item(&g, "plastic-bar", &rs, &techs()) {
        Ok(Route::Craft(r)) => assert_eq!(r.name, "plastic-bar"),
        Ok(Route::Raw) => panic!("expected a recipe, got a raw input"),
        Err(e) => panic!("expected a recipe, got {e:?}"),
    }
}

#[test]
fn ambiguity_surfaces_as_an_error() {
    let rs = recipes();
    let g = ChainGoal::new("electronic-circuit", vec![]);
    assert!(matches!(
        route_item(&g, "copper-cable", &rs, &techs()),
        Err(ChainError::AmbiguousRecipe { .. })
    ));
}

// ── Build order ───────────────────────────────────────────────────────

#[test]
fn steps_are_topologically_ordered() {
    let rs = recipes();
    let circuit = rs.get("electronic-circuit").unwrap();
    let cable = rs.get("copper-cable").unwrap();
    let plate = rs.get("copper-plate").unwrap();
    let steps = vec![circuit, cable, plate];
    let order = topologically_order(&steps);
    let rank = |name: &str| order.iter().position(|&i| steps[i].name == name).unwrap();
    assert_eq!(order.len(), 3);
    assert!(rank("copper-plate") < rank("copper-cable"));
    assert!(rank("copper-cable") < rank("electronic-circuit"));
}

#[test]
fn independent_steps_are_built_in_name_order() {
    let rs = recipes();
    let steps = vec![rs.get("pipe").unwrap(), rs.get("iron-gear-wheel").unwrap(), rs.get("copper-plate").unwrap()];
    let order = topologically_order(&steps);
    let names: Vec<&str> = order.iter().map(|&i| steps[i].name.as_str()).collect();
    assert_eq!(names, vec!["copper-plate", "iron-gear-wheel", "pipe"]);
}

#[test]
fn a_cycle_still_orders_every_step_once() {
    let a = recipe("a", "crafting", &["y"], &["x"], true);
    let b = recipe("b", "crafting", &["x"], &["y"], true);
    let steps = vec![&a, &b];
    let mut order = topologically_order(&steps);
    order.sort();
    assert_eq!(order, vec![0, 1]);
}

#[test]
fn with_machines_replaces_only_the_policy() {
    let g = ChainGoal::new("electronic-circuit", vec!["iron-plate".to_string()])
        .with_override("copper-cable", "copper-cable")
        .with_machines(MachinePolicy::all("assembling-machine-2"));
    assert_eq!(g.machines.fallback, MachineFallback::Named("assembling-machine-2".into()));
    assert_eq!(g.product, "electronic-circuit");
    assert!(g.available.contains("iron-plate"));
    assert_eq!(g.recipe_overrides.get("copper-cable").unwrap(), "copper-cable");
}

#[test]
fn available_candidates_are_the_allowed_candidates_in_order() {
    let rs = recipes();
    let ts = techs();
    for avail in [unlocked(&[]), unlocked(&["casting-iron"]), Availability::Everything] {
        for item in ["iron-plate", "copper-cable", "molten-iron", "assembling-machine-2"] {
            let filtered: Vec<String> = candidates_for(item, &rs)
                .into_iter()
                .filter(|r| avail.allows(r, &ts))
                .map(|r| r.name.clone())
                .collect();
            assert_eq!(names(&available_candidates_for(item, &avail, &rs, &ts)), filtered, "{item}");
        }
    }
    assert_eq!(names(&available_candidates_for("iron-plate", &unlocked(&["casting-iron"]), &rs, &ts)), vec![
        "casting-iron",
        "iron-plate"
    ]);
    assert_eq!(names(&available_candidates_for("iron-plate", &unlocked(&[]), &rs, &ts)), vec!["iron-plate"]);
}
