//! What to build and how: the machine policy, recipe overrides, the items
//! already on the bus, and what the player can build.
use vstd::prelude::*;

use crate::availability::Availability;
use crate::names::{NameMap, NameSet};
use crate::text::texts;

verus! {

/// What to use for a crafting category with no explicit preference.
#[derive(Debug, Clone, PartialEq, Eq)]
pub enum MachineFallback {
    /// The fastest machine covering the category.
    FastestAvailable,
    /// A specific machine, used wherever its categories allow.
    Named(String),
}

#[derive(Debug, PartialEq, Eq)]
pub struct MachinePolicy {
    /// Crafting category -> machine name.
    pub preferred: NameMap,
    pub fallback: MachineFallback,
}

impl MachinePolicy {
    /// The fastest machine for every category: the default policy.
    pub fn fastest() -> (res: Self)
        ensures
            res.preferred@ == Map::<Seq<char>, Seq<char>>::empty(),
            res.fallback == MachineFallback::FastestAvailable,
    {
        MachinePolicy { preferred: NameMap::new(), fallback: MachineFallback::FastestAvailable }
    }

    /// `machine` for every category it can craft; categories it cannot craft
    /// are an error, not a quiet fallback.
    pub fn all(machine: &str) -> (res: Self)
        ensures
            res.preferred@ == Map::<Seq<char>, Seq<char>>::empty(),
            res.fallback matches MachineFallback::Named(m) && m@ == machine@,
    {
        MachinePolicy {
            preferred: NameMap::new(),
            fallback: MachineFallback::Named(String::from_str(machine)),
        }
    }

    /// Pins one category to one machine, leaving the rest to the fallback.
    pub fn with_preference(self, category: &str, machine: &str) -> (res: Self)
        ensures
            res.preferred@ == self.preferred@.insert(category@, machine@),
            res.fallback == self.fallback,
    {
        let mut p = self;
        p.preferred.insert(String::from_str(category), String::from_str(machine));
        p
    }
}

impl Default for MachinePolicy {
    fn default() -> (res: Self)
        ensures
            res.preferred@ == Map::<Seq<char>, Seq<char>>::empty(),
            res.fallback == MachineFallback::FastestAvailable,
    {
        Self::fastest()
    }
}

/// What to build and where the chain stops. The rate is the caller's: the
/// calculator's decisions do not depend on it.
///
/// `available` is the bus: resolution walks back from `product` until it
/// reaches it.
#[derive(Debug, PartialEq, Eq)]
pub struct ChainGoal {
    pub product: String,
    /// Items already on the bus. Resolution stops here.
    pub available: NameSet,
    pub machines: MachinePolicy,
    /// Item -> recipe name, resolving items with more than one producer.
    pub recipe_overrides: NameMap,
    /// What the player can build.
    pub availability: Availability,
}

impl ChainGoal {
    /// A goal with the default machine policy, no overrides, and every
    /// buildable recipe available.
    pub fn new(product: &str, available: Vec<String>) -> (res: Self)
        ensures
            res.product@ == product@,
            res.available@ == texts(available@).to_set(),
            res.machines.fallback == MachineFallback::FastestAvailable,
            res.machines.preferred@ == Map::<Seq<char>, Seq<char>>::empty(),
            res.recipe_overrides@ == Map::<Seq<char>, Seq<char>>::empty(),
            res.availability == Availability::Everything,
    {
        ChainGoal {
            product: String::from_str(product),
            available: NameSet::from_names(available),
            machines: MachinePolicy::fastest(),
            recipe_overrides: NameMap::new(),
            availability: Availability::Everything,
        }
    }

    pub fn with_machines(self, machines: MachinePolicy) -> (res: Self)
        ensures
            res == (ChainGoal { machines, ..self }),
    {
        let mut g = self;
        g.machines = machines;
        g
    }

    pub fn with_override(self, item: &str, recipe: &str) -> (res: Self)
        ensures
            res.recipe_overrides@ == self.recipe_overrides@.insert(item@, recipe@),
            res.product == self.product,
            res.available == self.available,
            res.machines == self.machines,
            res.availability == self.availability,
    {
        let mut g = self;
        g.recipe_overrides.insert(String::from_str(item), String::from_str(recipe));
        g
    }

    pub fn with_availability(self, availability: Availability) -> (res: Self)
        ensures
            res == (ChainGoal { availability, ..self }),
    {
        let mut g = self;
        g.availability = availability;
        g
    }
}

} // verus!
