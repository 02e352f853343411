//! The decisions of rate solving: where demand for an item goes (the bus, the
//! raw inputs or a recipe), which items are refused outright, and the order
//! in which the chosen recipes are built.
use vstd::prelude::*;

use crate::availability::allows_spec;
use crate::chain::error::ChainError;
use crate::chain::goal::ChainGoal;
use crate::chain::select::{
    allowed_candidate, available_candidates_for, candidate_unlocker_names, candidates_for,
    has_candidate, is_candidate, lists_exactly, names_of, names_where, select_recipe,
    selected_recipe, unlockers_of, lemma_candidate_unlockers, lemma_listed_names,
};
use crate::recipe::{ItemKind, Recipe, RecipeItem, RecipeRegistry};
use crate::tech::{TechRegistry, Technology};
use crate::text::{is_strictly_sorted, texts};

verus! {

/// Some recipe of `recipes` that `a` allows may be chosen for `item`.
pub open spec fn has_allowed_candidate(
    recipes: Seq<Recipe>,
    item: Seq<char>,
    a: crate::availability::Availability,
    techs: Seq<Technology>,
) -> bool {
    exists|i: int| 0 <= i < recipes.len() && allowed_candidate(#[trigger] recipes[i], item, a, techs)
}

/// `item` is craftable in principle but not under the goal's availability,
/// and no override names a recipe for it.
pub open spec fn locked_spec(goal: ChainGoal, item: Seq<char>, recipes: Seq<Recipe>, techs: Seq<Technology>) -> bool {
    !goal.recipe_overrides@.contains_key(item) && !has_allowed_candidate(recipes, item, goal.availability, techs)
}

/// `e` is the refusal of a locked `item`: its candidate recipes and the
/// research that would grant them, both in name order.
pub open spec fn is_locked_refusal(e: ChainError, item: Seq<char>, recipes: Seq<Recipe>, techs: Seq<Technology>) -> bool {
    match e {
        ChainError::RecipeLocked { item: x, unlocked_by, recipes: rs } => {
            &&& x@ == item
            &&& is_strictly_sorted(texts(rs@))
            &&& texts(rs@).to_set() == names_where(recipes, |r: Recipe| is_candidate(r, item))
            &&& is_strictly_sorted(texts(unlocked_by@))
            &&& texts(unlocked_by@).to_set() == candidate_unlocker_names(recipes, techs, item)
        },
        _ => false,
    }
}

/// Whether `item` must be refused rather than billed to the bus: it can be
/// crafted, but not by this player, and no override names a recipe for it.
/// An override suppresses the refusal, because recipe selection honours an
/// override without consulting availability.
pub fn locked_without_an_override(
    goal: &ChainGoal,
    item: &str,
    recipes: &RecipeRegistry,
    techs: &TechRegistry,
) -> (res: bool)
    ensures
        res == locked_spec(*goal, item@, recipes.spec_entries(), techs.spec_entries()),
{
    if goal.recipe_overrides.contains_key(item) {
        return false;
    }
    let allowed = available_candidates_for(item, &goal.availability, recipes, techs);
    proof {
        let all = recipes.spec_entries();
        if has_allowed_candidate(all, item@, goal.availability, techs.spec_entries()) {
            let i = choose|i: int| 0 <= i < all.len() && allowed_candidate(#[trigger] all[i], item@, goal.availability, techs.spec_entries());
            assert(allowed@.contains(&all[i]));
        }
        if allowed@.len() > 0 {
            assert(allowed@.contains(allowed@[0]));
            assert(all.contains(*allowed@[0]));
            let i = choose|i: int| 0 <= i < all.len() && all[i] == *allowed@[0];
            assert(allowed_candidate(all[i], item@, goal.availability, techs.spec_entries()));
        }
    }
    allowed.len() == 0
}

/// The refusal for a locked `item`, built from its candidates.
fn locked_refusal(item: &str, recipes: &RecipeRegistry, techs: &TechRegistry) -> (res: ChainError)
    ensures
        is_locked_refusal(res, item@, recipes.spec_entries(), techs.spec_entries()),
{
    let candidates = candidates_for(item, recipes);
    let unlocked_by = unlockers_of(&candidates, techs);
    let names = names_of(&candidates);
    proof {
        lemma_candidate_unlockers(candidates@, recipes.spec_entries(), techs.spec_entries(), item@);
        lemma_listed_names(candidates@, recipes.spec_entries(), |r: Recipe| is_candidate(r, item@));
    }
    ChainError::RecipeLocked { item: String::from_str(item), unlocked_by, recipes: names }
}

/// How solving a goal begins.
#[derive(Debug, Clone, Copy, PartialEq, Eq)]
pub enum GoalStart {
    /// The product is already on the bus: the plan is that one input.
    OnBus,
    /// The product has a recipe this player may use: resolve its chain.
    Resolve,
}

/// The checks made on the goal itself before any demand is propagated. The
/// goal is held to a stricter bar than the items below it: both "no recipe"
/// and "a recipe this player cannot build" are refusals here, never a bus
/// input.
pub fn check_goal(goal: &ChainGoal, recipes: &RecipeRegistry, techs: &TechRegistry) -> (res: Result<
    GoalStart,
    ChainError,
>)
    ensures
        ({
            let all = recipes.spec_entries();
            let ts = techs.spec_entries();
            let p = goal.product@;
            if goal.available@.contains(p) {
                res == Ok::<GoalStart, ChainError>(GoalStart::OnBus)
            } else if !has_candidate(all, p) {
                res == Err::<GoalStart, ChainError>(ChainError::UnreachableBoundary { item: goal.product })
            } else if locked_spec(*goal, p, all, ts) {
                res matches Err(e) && is_locked_refusal(e, p, all, ts)
            } else {
                res == Ok::<GoalStart, ChainError>(GoalStart::Resolve)
            }
        }),
{
    let product = goal.product.as_str();
    if goal.available.contains(product) {
        return Ok(GoalStart::OnBus);
    }
    let candidates = candidates_for(product, recipes);
    if candidates.len() == 0 {
        proof {
            let all = recipes.spec_entries();
            assert forall|i: int| 0 <= i < all.len() implies !is_candidate(#[trigger] all[i], product@) by {
                if is_candidate(all[i], product@) {
                    assert(candidates@.contains(&all[i]));
                }
            }
        }
        return Err(ChainError::UnreachableBoundary { item: goal.product.clone() });
    }
    proof {
        assert(candidates@.contains(candidates@[0]));
        let all = recipes.spec_entries();
        assert(all.contains(*candidates@[0]));
        let i = choose|i: int| 0 <= i < all.len() && all[i] == *candidates@[0];
        assert(is_candidate(all[i], product@));
    }
    if locked_without_an_override(goal, product, recipes, techs) {
        return Err(locked_refusal(product, recipes, techs));
    }
    Ok(GoalStart::Resolve)
}

/// Where the demand for an item that is not on the bus goes.
#[derive(Debug, Clone, Copy, PartialEq)]
pub enum Route<'a> {
    /// No recipe makes it: a raw input the bus must supply.
    Raw,
    /// Crafted by this recipe.
    Craft(&'a Recipe),
}

/// `ing` is a fluid that is not on the bus.
pub open spec fn unrouted_fluid(ing: RecipeItem, available: Set<Seq<char>>) -> bool {
    ing.kind == ItemKind::Fluid && !available.contains(ing.name@)
}

/// The outcome of checking `r`'s ingredients for fluids that are not on the
/// bus: the first such fluid is refused.
pub open spec fn fluid_checked(r: Recipe, available: Set<Seq<char>>, res: Result<Recipe, ChainError>) -> bool {
    match res {
        Ok(x) => x == r && forall|k: int| 0 <= k < r.ingredients@.len() ==> !unrouted_fluid(#[trigger] r.ingredients@[k], available),
        Err(ChainError::FluidIngredient { recipe, fluid }) => recipe@ == r.name@ && exists|k: int|
            0 <= k < r.ingredients@.len() && unrouted_fluid(#[trigger] r.ingredients@[k], available)
                && fluid@ == r.ingredients@[k].name@ && forall|j: int| 0 <= j < k ==> !unrouted_fluid(#[trigger] r.ingredients@[j], available),
        Err(_) => false,
    }
}

/// Refuses the first ingredient of `r` that is a fluid not on the bus: this
/// solver routes no pipes, so the boundary must stop before it.
fn check_fluids(r: &Recipe, goal: &ChainGoal) -> (res: Result<(), ChainError>)
    ensures
        fluid_checked(*r, goal.available@, match res {
            Ok(_) => Ok(*r),
            Err(e) => Err(e),
        }),
{
    let mut k: usize = 0;
    while k < r.ingredients.len()
        invariant
            k <= r.ingredients@.len(),
            forall|j: int| 0 <= j < k ==> !unrouted_fluid(#[trigger] r.ingredients@[j], goal.available@),
        decreases r.ingredients.len() - k,
    {
        let ing = &r.ingredients[k];
        if ing.kind == ItemKind::Fluid && !goal.available.contains(ing.name.as_str()) {
            proof {
                assert(unrouted_fluid(r.ingredients@[k as int], goal.available@));
            }
            return Err(ChainError::FluidIngredient { recipe: r.name.clone(), fluid: ing.name.clone() });
        }
        k = k + 1;
    }
    Ok(())
}

/// The rules `route_item` follows, for one outcome.
pub open spec fn routed(
    goal: ChainGoal,
    item: Seq<char>,
    recipes: Seq<Recipe>,
    techs: Seq<Technology>,
    res: Result<Option<Recipe>, ChainError>,
) -> bool {
    if !has_candidate(recipes, item) {
        res == Ok::<Option<Recipe>, ChainError>(None)
    } else if locked_spec(goal, item, recipes, techs) {
        res matches Err(e) && is_locked_refusal(e, item, recipes, techs)
    } else {
        match res {
            Ok(Some(r)) => selected_recipe(item, goal.recipe_overrides@, goal.availability, recipes, techs, Ok(r))
                && fluid_checked(r, goal.available@, Ok(r)),
            Ok(None) => false,
            Err(e) => if e is FluidIngredient {
                exists|r: Recipe|
                    #[trigger] selected_recipe(item, goal.recipe_overrides@, goal.availability, recipes, techs, Ok(r))
                        && fluid_checked(r, goal.available@, Err(e))
            } else {
                selected_recipe(item, goal.recipe_overrides@, goal.availability, recipes, techs, Err(e))
            },
        }
    }
}

/// Where demand for `item`, an item that is not on the bus and that no
/// surplus covers, goes: a raw input when no recipe makes it at all; a
/// refusal when it is craftable but not by this player; otherwise the one
/// recipe selection picks, unless that recipe needs a fluid the bus does not
/// carry.
pub fn route_item<'a>(
    goal: &ChainGoal,
    item: &str,
    recipes: &'a RecipeRegistry,
    techs: &TechRegistry,
) -> (res: Result<Route<'a>, ChainError>)
    ensures
        routed(*goal, item@, recipes.spec_entries(), techs.spec_entries(), match res {
            Ok(Route::Raw) => Ok(None),
            Ok(Route::Craft(r)) => Ok(Some(*r)),
            Err(e) => Err(e),
        }),
{
    let candidates = candidates_for(item, recipes);
    let ghost all = recipes.spec_entries();
    if candidates.len() == 0 {
        proof {
            assert forall|i: int| 0 <= i < all.len() implies !is_candidate(#[trigger] all[i], item@) by {
                if is_candidate(all[i], item@) {
                    assert(candidates@.contains(&all[i]));
                }
            }
        }
        return Ok(Route::Raw);
    }
    proof {
        assert(candidates@.contains(candidates@[0]));
        assert(all.contains(*candidates@[0]));
        let i = choose|i: int| 0 <= i < all.len() && all[i] == *candidates@[0];
        assert(is_candidate(all[i], item@));
    }
    if locked_without_an_override(goal, item, recipes, techs) {
        return Err(locked_refusal(item, recipes, techs));
    }
    let recipe = match select_recipe(item, &goal.recipe_overrides, &goal.availability, recipes, techs) {
        Ok(r) => r,
        Err(e) => {
            proof {
                assert(!(e is FluidIngredient));
            }
            return Err(e);
        },
    };
    match check_fluids(recipe, goal) {
        Ok(()) => Ok(Route::Craft(recipe)),
        Err(e) => {
            proof {
                assert(selected_recipe(item@, goal.recipe_overrides@, goal.availability, all, techs.spec_entries(), Ok(*recipe)));
            }
            Err(e)
        },
    }
}

} // verus!
