use factorio_solver::prototype::{EntityCategory, EntityPrototype, Frac, Prototypes};
use factorio_solver::recipe::{ItemKind, Recipe, RecipeItem, RecipeRegistry};
use factorio_solver::registry::Registry;
use factorio_solver::tech::{TechRegistry, Technology};

fn recipe(name: &str, category: &str, ingredients: &[&str], results: &[(&str, ItemKind)]) -> Recipe {
    Recipe::new(
        name,
        category,
        ingredients.iter().map(|n| RecipeItem::new(n, ItemKind::Item)).collect(),
        results.iter().map(|(n, k)| RecipeItem::new(n, *k)).collect(),
    )
}

fn recipes() -> RecipeRegistry {
    let mut uranium = recipe(
        "uranium-processing",
        "centrifuging",
        &["uranium-ore"],
        &[("uranium-235", ItemKind::Item), ("uranium-238", ItemKind::Item)],
    );
    uranium.enabled = false;
    let mut molten = recipe("molten-iron", "metallurgy", &["iron-ore", "calcite"], &[("molten-iron", ItemKind::Fluid)]);
    molten.enabled = false;
    molten.main_product = Some("molten-iron".to_string());
    Registry::from_entries(vec![
        recipe("iron-plate", "smelting", &["iron-ore"], &[("iron-plate", ItemKind::Item)]),
        recipe("iron-gear-wheel", "crafting", &["iron-plate"], &[("iron-gear-wheel", ItemKind::Item)]),
        uranium,
        molten,
    ])
}

fn tech(name: &str, prerequisites: &[&str], unlocks: &[&str]) -> Technology {
    Technology {
        name: name.to_string(),
        display_name: None,
        prerequisites: prerequisites.iter().map(|s| s.to_string()).collect(),
        unlocks: unlocks.iter().map(|s| s.to_string()).collect(),
    }
}

fn techs() -> TechRegistry {
    Registry::from_entries(vec![
        tech("metallurgy-basics", &[], &["molten-iron"]),
        tech("foundry", &["metallurgy-basics"], &["foundry", "casting-iron", "molten-iron"]),
        tech("uranium-processing", &[], &["uranium-processing"]),
        tech("toolbelt", &[], &[]),
    ])
}

#[test]
fn registry_carries_probability_and_main_product() {
    let rs = recipes();
    let u = rs.get("uranium-processing").expect("uranium-processing present");
    assert!(u.results.iter().any(|r| r.name == "uranium-235"));
    assert_eq!(rs.get("molten-iron").unwrap().main_product.as_deref(), Some("molten-iron"));
}

#[test]
fn registry_loads_committed_data() {
    let rs = recipes();
    let r = rs.get("iron-gear-wheel").expect("iron-gear-wheel present");
    assert_eq!(r.name, "iron-gear-wheel");
    assert!(!rs.is_empty());
}

#[test]
fn a_later_entry_replaces_an_earlier_one_of_the_same_name() {
    let mut first = recipe("iron-plate", "smelting", &["iron-ore"], &[("iron-plate", ItemKind::Item)]);
    first.hidden = true;
    let second = recipe("iron-plate", "smelting", &["iron-ore"], &[("iron-plate", ItemKind::Item)]);
    let other = recipe("copper-plate", "smelting", &["copper-ore"], &[("copper-plate", ItemKind::Item)]);
    let rs = Registry::from_entries(vec![first, other, second]);
    assert_eq!(rs.len(), 2);
    assert!(!rs.get("iron-plate").unwrap().hidden);
    assert_eq!(rs.entries()[0].name, "iron-plate", "the replacement keeps the first one's place");
}

#[test]
fn insert_then_get_reads_back_what_was_written() {
    let mut rs: RecipeRegistry = Registry::empty();
    assert!(rs.is_empty());
    rs.insert(recipe("pipe", "crafting", &["iron-plate"], &[("pipe", ItemKind::Item)]));
    assert_eq!(rs.get("pipe").unwrap().category, "crafting");
    assert!(rs.get("pipe-to-ground").is_none());
}

#[test]
fn streams_know_what_they_yield_and_consume() {
    let rs = recipes();
    let gear = rs.get("iron-gear-wheel").unwrap();
    assert!(gear.yields_item("iron-gear-wheel"));
    assert!(!gear.yields_item("iron-plate"));
    assert!(gear.consumes_item("iron-plate"));
    assert!(!gear.consumes_item("iron-gear-wheel"));
}

#[test]
fn the_registry_loads_and_indexes_unlockers() {
    let ts = techs();
    assert!(!ts.is_empty());
    assert!(ts.unlockers_for("no-such-recipe").is_empty());
}

#[test]
fn get_returns_none_for_an_unknown_name() {
    assert!(techs().get("not-a-real-technology").is_none());
}

#[test]
fn every_entry_is_keyed_by_its_own_name() {
    let ts = techs();
    for t in ts.entries() {
        assert_eq!(ts.get(&t.name).unwrap().name, t.name);
    }
}

#[test]
fn unlockers_for_a_recipe_the_placeholder_unlocks_is_non_empty_and_sorted() {
    let ts = techs();
    let recipe = ts
        .entries()
        .iter()
        .flat_map(|t| t.unlocks.iter())
        .next()
        .cloned()
        .expect("the registry must unlock at least one recipe");
    let unlockers = ts.unlockers_for(&recipe);
    assert!(!unlockers.is_empty());
    let mut sorted = unlockers.clone();
    sorted.sort();
    assert_eq!(unlockers, sorted);
}

#[test]
fn unlockers_for_lists_every_technology_once_in_name_order() {
    let ts = techs();
    assert_eq!(
        ts.unlockers_for("molten-iron"),
        vec!["foundry".to_string(), "metallurgy-basics".to_string()]
    );
    assert!(ts.unlocks_recipe("casting-iron"));
    assert!(!ts.unlocks_recipe("iron-plate"));
}

#[test]
fn blue_belt_is_the_45_per_second_tier() {
    let blue = EntityPrototype {
        name: "express-transport-belt".to_string(),
        category: EntityCategory::Belt,
        tile_width: 1,
        tile_height: 1,
        crafting_categories: vec![],
        crafting_speed: None,
        belt_throughput: Some(Frac::whole(45)),
        supply_area_distance: None,
        pickup_position: None,
        insert_position: None,
    };
    let ps = Prototypes::from_prototypes(vec![blue]);
    let b = ps.lookup("express-transport-belt").unwrap();
    assert!(b.belt_throughput.unwrap().same_value(&Frac::new(45, 1)));
    assert!(ps.lookup("transport-belt").is_none());
}

#[test]
fn fractions_compare_and_round_by_value() {
    let half = Frac::new(1, 2);
    let three_quarters = Frac::new(3, 4);
    assert!(half.lt(&three_quarters));
    assert!(!three_quarters.lt(&half));
    assert!(half.same_value(&Frac::new(2, 4)));
    assert_eq!(Frac::new(7, 2).floor(), 3);
    assert_eq!(Frac::new(-7, 2).floor(), -4);
    assert_eq!(Frac::new(5, 2).round(), 3);
    assert_eq!(Frac::new(-5, 2).round(), -3);
    assert_eq!(Frac::new(6, 5).round(), 1);
    assert!(Frac::new(3, 4).neg().same_value(&Frac::new(-3, 4)));
}
