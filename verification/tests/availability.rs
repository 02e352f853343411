use factorio_solver::availability::{all_available_recipe_names, machine_unlockers, Availability};
use factorio_solver::recipe::{ItemKind, Recipe, RecipeItem, RecipeRegistry};
use factorio_solver::registry::Registry;
use factorio_solver::tech::{TechRegistry, Technology};

fn item(name: &str) -> RecipeItem {
    RecipeItem::new(name, ItemKind::Item)
}

fn recipe(name: &str, category: &str, ingredients: &[&str], results: &[&str], enabled: bool) -> Recipe {
    let mut r = Recipe::new(
        name,
        category,
        ingredients.iter().map(|n| item(n)).collect(),
        results.iter().map(|n| item(n)).collect(),
    );
    r.enabled = enabled;
    r
}

fn hidden(mut r: Recipe) -> Recipe {
    r.hidden = true;
    r
}

const NEVER_UNLOCKABLE: [&str; 8] = [
    "loader",
    "fast-loader",
    "express-loader",
    "turbo-loader",
    "infinity-chest",
    "infinity-pipe",
    "heat-interface",
    "pistol",
];

fn recipes() -> RecipeRegistry {
    let mut rs = vec![
        recipe("iron-plate", "smelting", &["iron-ore"], &["iron-plate"], true),
        recipe("copper-plate", "smelting", &["copper-ore"], &["copper-plate"], true),
        recipe("iron-gear-wheel", "crafting", &["iron-plate"], &["iron-gear-wheel"], true),
        recipe("copper-cable", "crafting", &["copper-plate"], &["copper-cable"], true),
        recipe("casting-iron", "metallurgy", &["molten-iron"], &["iron-plate"], false),
        recipe("uranium-processing", "centrifuging", &["uranium-ore"], &["uranium-235", "uranium-238"], false),
        recipe("assembling-machine-1", "crafting", &["iron-gear-wheel"], &["assembling-machine-1"], false),
        recipe("assembling-machine-2", "crafting", &["assembling-machine-1"], &["assembling-machine-2"], false),
        recipe("assembling-machine-3", "crafting", &["assembling-machine-2"], &["assembling-machine-3"], false),
        hidden(recipe(
            "assembling-machine-2-recycling",
            "recycling",
            &["assembling-machine-2"],
            &["assembling-machine-1", "iron-gear-wheel"],
            true,
        )),
        recipe("electromagnetic-plant", "crafting", &["holmium-plate"], &["electromagnetic-plant"], false),
        recipe("holmium-plate", "crafting", &["holmium-ore"], &["holmium-plate"], false),
        hidden(recipe("holmium-plate-recycling", "recycling", &["holmium-plate"], &["holmium-plate"], true)),
    ];
    for name in NEVER_UNLOCKABLE {
        rs.push(hidden(recipe(name, "crafting", &["iron-plate"], &[name], false)));
    }
    Registry::from_entries(rs)
}

fn tech(name: &str, unlocks: &[&str]) -> Technology {
    Technology {
        name: name.to_string(),
        display_name: None,
        prerequisites: vec![],
        unlocks: unlocks.iter().map(|s| s.to_string()).collect(),
    }
}

fn techs() -> TechRegistry {
    Registry::from_entries(vec![
        tech("automation", &["assembling-machine-1"]),
        tech("automation-2", &["assembling-machine-2"]),
        tech("automation-3", &["assembling-machine-3"]),
        tech("foundry", &["casting-iron"]),
        tech("uranium-processing", &["uranium-processing"]),
        tech("electromagnetic-plant", &["electromagnetic-plant"]),
        tech("holmium-processing", &["holmium-plate"]),
        tech("electronics", &[]),
    ])
}

fn unlocked(names: &[&str]) -> Availability {
    Availability::unlocked(names.iter().map(|n| n.to_string()).collect())
}

fn allows(a: &Availability, name: &str) -> bool {
    let rs = recipes();
    let r = rs.get(name).unwrap_or_else(|| panic!("{name} missing from the registry"));
    a.allows(r, &techs())
}

fn allows_machine(a: &Availability, machine: &str) -> bool {
    a.allows_machine(machine, &recipes(), &techs())
}

#[test]
fn enabled_recipes_are_available_under_an_empty_unlocked_set() {
    assert!(allows(&unlocked(&[]), "iron-plate"));
}

#[test]
fn a_locked_recipe_needs_to_be_in_the_set() {
    assert!(!allows(&unlocked(&[]), "casting-iron"));
    assert!(allows(&unlocked(&["casting-iron"]), "casting-iron"));
}

#[test]
fn never_unlockable_recipes_are_excluded_under_everything() {
    for name in NEVER_UNLOCKABLE {
        assert!(!allows(&Availability::Everything, name), "{name}");
    }
}

#[test]
fn research_locked_recipes_stay_available_under_everything() {
    assert!(allows(&Availability::Everything, "uranium-processing"));
    assert!(allows(&Availability::Everything, "casting-iron"));
}

#[test]
fn an_explicit_set_outranks_the_never_unlockable_rule() {
    assert!(allows(&unlocked(&["loader"]), "loader"));
}

#[test]
fn machine_availability_follows_its_own_recipe() {
    assert!(!allows_machine(&unlocked(&[]), "electromagnetic-plant"));
    assert!(allows_machine(&unlocked(&["electromagnetic-plant"]), "electromagnetic-plant"));
    assert!(allows_machine(&Availability::Everything, "electromagnetic-plant"));
}

#[test]
fn a_starting_machine_is_available_to_every_set() {
    assert!(allows_machine(&unlocked(&[]), "assembling-machine-1"));
}

#[test]
fn a_machine_no_recipe_produces_stays_available() {
    let rs = recipes();
    let produced: Vec<String> =
        rs.entries().iter().flat_map(|r| r.results.iter().map(|x| x.name.clone())).collect();
    let prototypes = ["crash-site-spaceship", "editor-chest", "curved-rail", "assembling-machine-2"];
    let unproduced: Vec<&str> =
        prototypes.iter().copied().filter(|n| !produced.iter().any(|p| p == n)).collect();
    assert!(!unproduced.is_empty(), "test premise: some prototypes have no recipe");
    for name in unproduced {
        assert!(allows_machine(&unlocked(&[]), name), "{name}");
    }
    assert!(allows_machine(&unlocked(&[]), "not-a-prototype-at-all"));
}

#[test]
fn machine_availability_reads_the_raw_registry_not_the_chain_filters() {
    let rs = recipes();
    let hidden_or_recycling: Vec<String> = rs
        .entries()
        .iter()
        .filter(|r| r.results.iter().any(|x| x.name == "holmium-plate"))
        .filter(|r| r.hidden || r.category.starts_with("recycling"))
        .map(|r| r.name.clone())
        .collect();
    assert!(!hidden_or_recycling.is_empty(), "test premise: some are filtered out of chains");
    for name in hidden_or_recycling {
        assert!(allows_machine(&unlocked(&[name.as_str()]), "holmium-plate"), "{name}");
    }
}

#[test]
fn machine_unlockers_names_the_technology_behind_the_recipe() {
    assert_eq!(
        machine_unlockers("electromagnetic-plant", &recipes(), &techs()),
        vec!["electromagnetic-plant".to_string()]
    );
}

#[test]
fn machine_unlockers_is_empty_when_nothing_produces_it() {
    assert!(machine_unlockers("not-a-prototype-at-all", &recipes(), &techs()).is_empty());
}

#[test]
fn machine_unlockers_are_sorted_and_deduplicated() {
    let rs = Registry::from_entries(vec![
        recipe("gear-a", "crafting", &["iron-plate"], &["gear"], false),
        recipe("gear-b", "crafting", &["iron-plate"], &["gear"], false),
    ]);
    let ts = Registry::from_entries(vec![
        tech("zeta", &["gear-a"]),
        tech("alpha", &["gear-b", "gear-a"]),
    ]);
    assert_eq!(machine_unlockers("gear", &rs, &ts), vec!["alpha".to_string(), "zeta".to_string()]);
}

#[test]
fn everything_is_the_default() {
    assert_eq!(Availability::default(), Availability::Everything);
}

#[test]
fn the_seed_is_exactly_what_everything_allows() {
    let rs = recipes();
    let ts = techs();
    let seed = all_available_recipe_names(&rs, &ts);
    assert_eq!(seed.len(), rs.len() - 8, "the eight unreachable ones are out");
    assert!(seed.contains("iron-plate"));
    assert!(seed.contains("uranium-processing"), "research-locked but reachable");
    assert!(!seed.contains("loader"));

    let seeded = Availability::Unlocked(seed);
    for r in rs.entries() {
        assert_eq!(seeded.allows(r, &ts), Availability::Everything.allows(r, &ts), "{}", r.name);
    }
}

#[test]
fn everything_treats_an_unknown_recipe_and_an_unknown_machine_differently() {
    let a = Availability::Everything;
    assert!(!a.allows_recipe("not-a-real-recipe", &recipes(), &techs()));
    assert!(a.allows_machine("not-a-real-machine", &recipes(), &techs()));
}

#[test]
fn unlocked_allows_only_listed_recipes() {
    let a = unlocked(&["iron-plate"]);
    assert!(a.allows_recipe("iron-plate", &recipes(), &techs()));
    assert!(!a.allows_recipe("casting-iron", &recipes(), &techs()));
}

#[test]
fn allows_machine_is_keyed_on_produced_item_not_recipe_name() {
    let a = unlocked(&["assembling-machine-2"]);
    assert!(allows_machine(&a, "assembling-machine-2"));
    assert!(!allows_machine(&a, "assembling-machine-3"));
}

#[test]
fn allows_machine_true_via_any_producing_recipe_even_a_recycling_one() {
    let a = unlocked(&[]);
    assert!(allows_machine(&a, "assembling-machine-1"));
    assert!(!allows_machine(&a, "assembling-machine-3"));
}
