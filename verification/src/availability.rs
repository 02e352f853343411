//! What the player can build: a set of recipe names, however it was obtained.
use vstd::prelude::*;

use crate::names::NameSet;
use crate::registry::Named;
use crate::recipe::{yields, Recipe, RecipeRegistry};
use crate::tech::{unlocked_by_some, TechRegistry, Technology};
use crate::text::{contains_name, texts};

verus! {

/// Which recipes the player is able to build.
#[derive(Debug, PartialEq, Eq)]
pub enum Availability {
    /// No source to consult: everything except what no playthrough can reach.
    Everything,
    /// Recipe names known to be unlocked, from any source.
    Unlocked(NameSet),
}

/// Whether `a` lets the player build `r`: a recipe available at game start
/// always; otherwise, with no source, whatever some technology unlocks, and
/// with a source, whatever the source lists.
pub open spec fn allows_spec(a: Availability, r: Recipe, techs: Seq<Technology>) -> bool {
    r.enabled || match a {
        Availability::Everything => unlocked_by_some(techs, r.name@),
        Availability::Unlocked(set) => set@.contains(r.name@),
    }
}

/// Some recipe of `recipes` yields `item`.
pub open spec fn produced_by_some(recipes: Seq<Recipe>, item: Seq<char>) -> bool {
    exists|i: int| 0 <= i < recipes.len() && yields(#[trigger] recipes[i], item)
}

/// Some recipe of `recipes` that `a` allows yields `item`.
pub open spec fn produced_by_allowed(
    a: Availability,
    recipes: Seq<Recipe>,
    techs: Seq<Technology>,
    item: Seq<char>,
) -> bool {
    exists|i: int|
        0 <= i < recipes.len() && yields(#[trigger] recipes[i], item) && allows_spec(a, recipes[i], techs)
}

/// Whether a machine can be obtained under `a`: some allowed recipe yields it,
/// or no recipe yields it at all.
pub open spec fn allows_machine_spec(
    a: Availability,
    recipes: Seq<Recipe>,
    techs: Seq<Technology>,
    machine: Seq<char>,
) -> bool {
    !produced_by_some(recipes, machine) || produced_by_allowed(a, recipes, techs, machine)
}

/// Tech `t` unlocks some recipe of `recipes` that yields `item`.
pub open spec fn unlocks_a_producer(t: Technology, recipes: Seq<Recipe>, item: Seq<char>) -> bool {
    exists|i: int|
        0 <= i < recipes.len() && yields(#[trigger] recipes[i], item) && texts(t.unlocks@).contains(
            recipes[i].name@,
        )
}

/// The names of the technologies that unlock some recipe yielding `item`.
pub open spec fn machine_unlocker_names(
    recipes: Seq<Recipe>,
    techs: Seq<Technology>,
    item: Seq<char>,
) -> Set<Seq<char>> {
    Set::new(
        |n: Seq<char>|
            exists|j: int|
                0 <= j < techs.len() && #[trigger] techs[j].name@ == n && unlocks_a_producer(
                    techs[j],
                    recipes,
                    item,
                ),
    )
}

/// The names of the recipes that `Everything` allows.
pub open spec fn available_names(recipes: Seq<Recipe>, techs: Seq<Technology>) -> Set<Seq<char>> {
    Set::new(
        |n: Seq<char>|
            exists|i: int|
                0 <= i < recipes.len() && #[trigger] recipes[i].name@ == n && allows_spec(
                    Availability::Everything,
                    recipes[i],
                    techs,
                ),
    )
}

impl Availability {
    /// `Unlocked` holding exactly `names`.
    pub fn unlocked(names: Vec<String>) -> (res: Self)
        ensures
            res matches Availability::Unlocked(set) && set@ == texts(names@).to_set(),
    {
        Availability::Unlocked(NameSet::from_names(names))
    }

    /// Whether `recipe` may be chosen. A recipe enabled at game start is
    /// always allowed. Otherwise `Everything` allows what some technology
    /// unlocks (so the few recipes nothing unlocks are out), and `Unlocked`
    /// allows what its set lists, overriding that rule.
    pub fn allows(&self, recipe: &Recipe, techs: &TechRegistry) -> (res: bool)
        ensures
            res == allows_spec(*self, *recipe, techs.spec_entries()),
    {
        if recipe.enabled {
            return true;
        }
        match self {
            Availability::Everything => techs.unlocks_recipe(recipe.name.as_str()),
            Availability::Unlocked(set) => set.contains(recipe.name.as_str()),
        }
    }

    /// `allows` by recipe name. A name that is no recipe is not allowed.
    pub fn allows_recipe(&self, recipe: &str, recipes: &RecipeRegistry, techs: &TechRegistry) -> (res: bool)
        ensures
            res == exists|i: int|
                0 <= i < recipes.spec_entries().len() && #[trigger] recipes.spec_entries()[i].name@
                    == recipe@ && allows_spec(*self, recipes.spec_entries()[i], techs.spec_entries()),
    {
        match recipes.get(recipe) {
            Some(r) => {
                let res = self.allows(r, techs);
                proof {
                    let all = recipes.spec_entries();
                    let i = choose|i: int| 0 <= i < all.len() && all[i] == *r && r.name@ == recipe@;
                    assert(all[i].name@ == recipe@);
                    if !res {
                        assert forall|j: int| 0 <= j < all.len() && #[trigger] all[j].name@ == recipe@ implies !allows_spec(*self, all[j], techs.spec_entries()) by {
                            assert(all[j].key() == recipe@);
                        }
                    }
                }
                res
            },
            None => {
                proof {
                    let all = recipes.spec_entries();
                    assert forall|j: int| 0 <= j < all.len() implies #[trigger] all[j].name@ != recipe@ by {
                        assert(all[j].key() != recipe@);
                    }
                }
                false
            },
        }
    }

    /// Whether the machine named `machine` can be obtained: some recipe this
    /// availability allows yields it, or no recipe yields it at all (missing
    /// data is no evidence of a lock). Every recipe counts, hidden and
    /// recycling ones included.
    pub fn allows_machine(&self, machine: &str, recipes: &RecipeRegistry, techs: &TechRegistry) -> (res: bool)
        ensures
            res == allows_machine_spec(*self, recipes.spec_entries(), techs.spec_entries(), machine@),
    {
        let rs = recipes.entries();
        let mut produced = false;
        let mut i: usize = 0;
        while i < rs.len()
            invariant
                rs@ == recipes.spec_entries(),
                i <= rs@.len(),
                produced == exists|j: int| 0 <= j < i && yields(#[trigger] rs@[j], machine@),
                forall|j: int|
                    0 <= j < i && yields(#[trigger] rs@[j], machine@) ==> !allows_spec(
                        *self,
                        rs@[j],
                        techs.spec_entries(),
                    ),
            decreases rs.len() - i,
        {
            if rs[i].yields_item(machine) {
                produced = true;
                if self.allows(&rs[i], techs) {
                    return true;
                }
            }
            i = i + 1;
        }
        !produced
    }
}

impl Default for Availability {
    fn default() -> (res: Self)
        ensures
            res == Availability::Everything,
    {
        Availability::Everything
    }
}

impl Clone for Availability {
    fn clone(&self) -> (res: Self)
        ensures
            res == *self || (match (*self, res) {
                (Availability::Unlocked(a), Availability::Unlocked(b)) => a@ == b@,
                _ => false,
            }),
    {
        match self {
            Availability::Everything => Availability::Everything,
            Availability::Unlocked(set) => Availability::Unlocked(set.clone()),
        }
    }
}

/// Names of the technologies that would unlock some recipe yielding
/// `machine`, sorted and without repeats. Empty when nothing yields it, or
/// when nothing unlocks its producers.
pub fn machine_unlockers(machine: &str, recipes: &RecipeRegistry, techs: &TechRegistry) -> (res: Vec<String>)
    ensures
        crate::text::is_strictly_sorted(texts(res@)),
        texts(res@).to_set() == machine_unlocker_names(recipes.spec_entries(), techs.spec_entries(), machine@),
{
    let rs = recipes.entries();
    let ts = techs.entries();
    let mut names = NameSet::new();
    let mut j: usize = 0;
    while j < ts.len()
        invariant
            rs@ == recipes.spec_entries(),
            ts@ == techs.spec_entries(),
            j <= ts@.len(),
            forall|n: Seq<char>| names@.contains(n) <==> exists|t: int|
                0 <= t < j && #[trigger] ts@[t].name@ == n && unlocks_a_producer(ts@[t], rs@, machine@),
        decreases ts.len() - j,
    {
        let t = &ts[j];
        let mut i: usize = 0;
        let mut hit = false;
        while i < rs.len()
            invariant
                rs@ == recipes.spec_entries(),
                j < ts@.len(),
                *t == ts@[j as int],
                i <= rs@.len(),
                hit == exists|k: int|
                    0 <= k < i && yields(#[trigger] rs@[k], machine@) && texts(t.unlocks@).contains(
                        rs@[k].name@,
                    ),
            decreases rs.len() - i,
        {
            if !hit && rs[i].yields_item(machine) && contains_name(&t.unlocks, rs[i].name.as_str()) {
                hit = true;
            }
            i = i + 1;
        }
        if hit {
            names.insert(t.name.clone());
        }
        proof {
            assert forall|n: Seq<char>| names@.contains(n) <==> exists|t2: int|
                0 <= t2 < j + 1 && #[trigger] ts@[t2].name@ == n && unlocks_a_producer(ts@[t2], rs@, machine@) by {
                if names@.contains(n) && !(exists|t2: int| 0 <= t2 < j && #[trigger] ts@[t2].name@ == n && unlocks_a_producer(ts@[t2], rs@, machine@)) {
                    assert(ts@[j as int].name@ == n);
                }
            }
        }
        j = j + 1;
    }
    let res = names.into_names();
    proof {
        assert(texts(res@).to_set() =~= machine_unlocker_names(rs@, ts@, machine@));
    }
    res
}

/// Every recipe name `Everything` allows: the seed a list of tickable
/// recipes starts from.
pub fn all_available_recipe_names(recipes: &RecipeRegistry, techs: &TechRegistry) -> (res: NameSet)
    ensures
        res@ == available_names(recipes.spec_entries(), techs.spec_entries()),
{
    let rs = recipes.entries();
    let everything = Availability::Everything;
    let mut names = NameSet::new();
    let mut i: usize = 0;
    while i < rs.len()
        invariant
            rs@ == recipes.spec_entries(),
            everything == Availability::Everything,
            i <= rs@.len(),
            forall|n: Seq<char>| names@.contains(n) <==> exists|k: int|
                0 <= k < i && #[trigger] rs@[k].name@ == n && allows_spec(
                    Availability::Everything,
                    rs@[k],
                    techs.spec_entries(),
                ),
        decreases rs.len() - i,
    {
        if everything.allows(&rs[i], techs) {
            names.insert(rs[i].name.clone());
        }
        proof {
            assert forall|n: Seq<char>| names@.contains(n) <==> exists|k: int|
                0 <= k < i + 1 && #[trigger] rs@[k].name@ == n && allows_spec(
                    Availability::Everything,
                    rs@[k],
                    techs.spec_entries(),
                ) by {
                if names@.contains(n) && !(exists|k: int| 0 <= k < i && #[trigger] rs@[k].name@ == n && allows_spec(Availability::Everything, rs@[k], techs.spec_entries())) {
                    assert(rs@[i as int].name@ == n);
                }
            }
        }
        i = i + 1;
    }
    proof {
        assert(names@ =~= available_names(rs@, techs.spec_entries()));
    }
    names
}

/// Seeding an `Unlocked` set from every recipe name `Everything` allows
/// lets the player build exactly what `Everything` lets them build, recipe
/// by recipe.
pub proof fn lemma_seed_allows_what_everything_allows(
    recipes: Seq<Recipe>,
    techs: Seq<Technology>,
    seed: NameSet,
    r: Recipe,
)
    requires
        crate::registry::unique_keys(recipes),
        recipes.contains(r),
        seed@ == available_names(recipes, techs),
    ensures
        allows_spec(Availability::Unlocked(seed), r, techs) == allows_spec(Availability::Everything, r, techs),
{
    let i = choose|i: int| 0 <= i < recipes.len() && recipes[i] == r;
    if seed@.contains(r.name@) {
        let k = choose|k: int| 0 <= k < recipes.len() && #[trigger] recipes[k].name@ == r.name@ && allows_spec(
            Availability::Everything,
            recipes[k],
            techs,
        );
        if k != i {
            assert(recipes[k].key() == recipes[i].key());
        }
    }
    if allows_spec(Availability::Everything, r, techs) {
        assert(recipes[i].name@ == r.name@);
        assert(available_names(recipes, techs).contains(r.name@));
    }
}

} // verus!
