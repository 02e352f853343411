//! The recipe model: what a recipe consumes and yields, by name and kind.
//!
//! Amounts and craft times are rates, and rate arithmetic lives with the
//! callers that own the floating-point side; selection, availability and
//! ordering only ever read the names, kinds and flags held here.
use vstd::prelude::*;

use crate::registry::{Named, Registry};
use crate::text::name_eq;

verus! {

/// Whether a stream is a solid item or a fluid.
#[derive(Debug, Clone, Copy, PartialEq, Eq, Structural)]
pub enum ItemKind {
    Item,
    Fluid,
}

/// One ingredient or result of a recipe.
#[derive(Debug, Clone, PartialEq)]
pub struct RecipeItem {
    pub name: String,
    pub kind: ItemKind,
}

impl RecipeItem {
    pub fn new(name: &str, kind: ItemKind) -> (res: Self)
        ensures
            res.name@ == name@,
            res.kind == kind,
    {
        RecipeItem { name: String::from_str(name), kind }
    }
}

#[derive(Debug, Clone, PartialEq)]
pub struct Recipe {
    pub name: String,
    pub display_name: Option<String>,
    /// Which machines can craft it.
    pub category: String,
    pub ingredients: Vec<RecipeItem>,
    pub results: Vec<RecipeItem>,
    /// Available without research.
    pub enabled: bool,
    /// Hidden from the player's crafting menu.
    pub hidden: bool,
    /// The result this recipe is "for", when the game declares one.
    pub main_product: Option<String>,
}

/// `r` lists `item` among its results.
pub open spec fn yields(r: Recipe, item: Seq<char>) -> bool {
    exists|i: int| 0 <= i < r.results@.len() && #[trigger] r.results@[i].name@ == item
}

/// `r` lists `item` among its ingredients.
pub open spec fn consumes(r: Recipe, item: Seq<char>) -> bool {
    exists|i: int| 0 <= i < r.ingredients@.len() && #[trigger] r.ingredients@[i].name@ == item
}

/// Whether `items` names `name`.
pub fn lists_item(items: &Vec<RecipeItem>, name: &str) -> (res: bool)
    ensures
        res == exists|i: int| 0 <= i < items@.len() && #[trigger] items@[i].name@ == name@,
{
    let mut i: usize = 0;
    while i < items.len()
        invariant
            i <= items@.len(),
            forall|j: int| 0 <= j < i ==> items@[j].name@ != name@,
        decreases items.len() - i,
    {
        if name_eq(items[i].name.as_str(), name) {
            return true;
        }
        i = i + 1;
    }
    false
}

impl Recipe {
    /// A recipe with the given category and streams, enabled, not hidden,
    /// with no display name and no declared main product.
    pub fn new(
        name: &str,
        category: &str,
        ingredients: Vec<RecipeItem>,
        results: Vec<RecipeItem>,
    ) -> (res: Self)
        ensures
            res.name@ == name@,
            res.category@ == category@,
            res.ingredients@ == ingredients@,
            res.results@ == results@,
            res.enabled,
            !res.hidden,
            res.display_name is None,
            res.main_product is None,
    {
        Recipe {
            name: String::from_str(name),
            display_name: None,
            category: String::from_str(category),
            ingredients,
            results,
            enabled: true,
            hidden: false,
            main_product: None,
        }
    }

    /// Whether this recipe lists `item` among its results.
    pub fn yields_item(&self, item: &str) -> (res: bool)
        ensures
            res == yields(*self, item@),
    {
        lists_item(&self.results, item)
    }

    /// Whether this recipe lists `item` among its ingredients.
    pub fn consumes_item(&self, item: &str) -> (res: bool)
        ensures
            res == consumes(*self, item@),
    {
        lists_item(&self.ingredients, item)
    }
}

impl Named for Recipe {
    open spec fn key(&self) -> Seq<char> {
        self.name@
    }

    fn key_str(&self) -> (res: &str) {
        self.name.as_str()
    }
}

/// All recipes, keyed by name.
pub type RecipeRegistry = Registry<Recipe>;

} // verus!
