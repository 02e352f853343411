//! Errors from chain resolution: every variant names the offending item or
//! recipe and the remedy.
use vstd::prelude::*;

use crate::text::texts;

verus! {

/// Every variant names the offending item/recipe and the remedy. A chain
/// that silently guessed would produce a blueprint that looks right and is
/// not, so ambiguity is always an error and never a default.
#[derive(Debug, Clone, PartialEq, Eq)]
pub enum ChainError {
    UnknownItem(String),
    UnknownBeltTier(String),
    FluidIngredient { recipe: String, fluid: String },
    AmbiguousRecipe { item: String, candidates: Vec<String> },
    NotUnlocked { item: String, unlocked_by: Vec<String> },
    /// Craftable in principle, not by this player: the rejected producers
    /// and the research that would grant them.
    RecipeLocked { item: String, unlocked_by: Vec<String>, recipes: Vec<String> },
    NoMachineForCategory { category: String, recipe: String },
    MachineNotUnlocked { machine: String, unlocked_by: Vec<String> },
    /// A named or otherwise best machine the player cannot build yet.
    MachineLocked { machine: String, recipe: String, unlocked_by: Vec<String> },
    UnreachableBoundary { item: String },
    UnknownMachine { machine: String },
    DidNotConverge { product: String, iterations: u32 },
}

/// `parts` with `sep` between consecutive ones.
pub open spec fn join(parts: Seq<Seq<char>>, sep: Seq<char>) -> Seq<char>
    decreases parts.len(),
{
    if parts.len() == 0 {
        seq![]
    } else if parts.len() == 1 {
        parts[0]
    } else {
        join(parts.drop_last(), sep) + sep + parts.last()
    }
}

/// Each name between single quotes.
pub open spec fn quoted(names: Seq<Seq<char>>) -> Seq<Seq<char>> {
    names.map_values(|n: Seq<char>| "'"@ + n + "'"@)
}

/// The "what would unlock this" half of a not-unlocked message.
pub open spec fn spec_unlock_hint(unlocked_by: Seq<Seq<char>>) -> Seq<char> {
    if unlocked_by.len() == 0 {
        "no technology unlocks it — tick it in the available-recipes list if you have it anyway"@
    } else {
        "it needs "@ + join(quoted(unlocked_by), " or "@)
            + " — research it, or tick the recipe in the available-recipes list"@
    }
}

pub open spec fn digit_char(d: nat) -> char {
    if d == 0 { '0' }
    else if d == 1 { '1' }
    else if d == 2 { '2' }
    else if d == 3 { '3' }
    else if d == 4 { '4' }
    else if d == 5 { '5' }
    else if d == 6 { '6' }
    else if d == 7 { '7' }
    else if d == 8 { '8' }
    else { '9' }
}

/// `n` in decimal, without leading zeros.
pub open spec fn decimal(n: nat) -> Seq<char>
    decreases n,
{
    if n < 10 {
        seq![digit_char(n)]
    } else {
        decimal(n / 10).push(digit_char(n % 10))
    }
}

/// The message shown for `e`.
pub open spec fn spec_message(e: ChainError) -> Seq<char> {
    match e {
        ChainError::UnknownItem(x) => "'"@ + x@
            + "' is not a known item — check the spelling, or it may be from a mod"@,
        ChainError::UnknownBeltTier(x) => "'"@ + x@
            + "' is not a belt — give a belt prototype name such as 'transport-belt', 'fast-transport-belt', 'express-transport-belt' or 'turbo-transport-belt', or state the rate in items per second"@,
        ChainError::FluidIngredient { recipe, fluid } => "recipe '"@ + recipe@ + "' needs the fluid '"@
            + fluid@ + "', which cannot be carried on a belt — declare '"@ + recipe@
            + "'s product available on the bus so the chain stops before it, or pick a goal that does not need fluids"@,
        ChainError::AmbiguousRecipe { item, candidates } => "'"@ + item@
            + "' can be made by more than one recipe ("@ + join(texts(candidates@), ", "@)
            + ") — choose one with a recipe override for '"@ + item@ + "'"@,
        ChainError::NotUnlocked { item, unlocked_by } => "'"@ + item@ + "' cannot be built yet: "@
            + spec_unlock_hint(texts(unlocked_by@)),
        ChainError::RecipeLocked { item, unlocked_by, recipes } => "'"@ + item@
            + "' cannot be built yet (its recipes "@ + join(quoted(texts(recipes@)), ", "@)
            + " are locked): "@ + spec_unlock_hint(texts(unlocked_by@)),
        ChainError::NoMachineForCategory { category, recipe } =>
            "no available machine can craft category '"@ + category@ + "' (needed by recipe '"@
            + recipe@ + "') — pick a machine for that category in the machine policy"@,
        ChainError::MachineNotUnlocked { machine, unlocked_by } => "machine '"@ + machine@
            + "' cannot be built yet: "@ + spec_unlock_hint(texts(unlocked_by@)),
        ChainError::MachineLocked { machine, recipe, unlocked_by } => "machine '"@ + machine@
            + "' (needed by recipe '"@ + recipe@ + "') cannot be built yet: "@
            + spec_unlock_hint(texts(unlocked_by@)),
        ChainError::UnreachableBoundary { item } => "'"@ + item@
            + "' cannot be reached from what is available — it has no recipe and is not a raw resource, so declare it available on the bus"@,
        ChainError::UnknownMachine { machine } => "'"@ + machine@
            + "' is not a known entity — pick a machine that exists, or it may be from a mod"@,
        ChainError::DidNotConverge { product, iterations } => "the rates for '"@ + product@
            + "' did not settle after "@ + decimal(iterations as nat)
            + " passes — this chain has a feedback loop that consumes more than it produces, so no steady state exists"@,
    }
}

/// `parts` joined with `sep`.
pub fn join_names(parts: &Vec<String>, sep: &str) -> (res: String)
    ensures
        res@ == join(texts(parts@), sep@),
{
    let mut res = String::new();
    let mut i: usize = 0;
    while i < parts.len()
        invariant
            i <= parts@.len(),
            res@ == join(texts(parts@.subrange(0, i as int)), sep@),
        decreases parts.len() - i,
    {
        proof {
            assert(texts(parts@.subrange(0, i + 1)).drop_last() =~= texts(parts@.subrange(0, i as int)));
            assert(texts(parts@.subrange(0, i + 1)).last() == parts@[i as int]@);
        }
        if i > 0 {
            res.append(sep);
        } else {
            assert(texts(parts@.subrange(0, 1)) =~= seq![parts@[0]@]);
        }
        res.append(parts[i].as_str());
        i = i + 1;
    }
    proof {
        assert(parts@.subrange(0, i as int) =~= parts@);
    }
    res
}

/// Each name quoted, then joined with `sep`.
pub fn join_quoted(parts: &Vec<String>, sep: &str) -> (res: String)
    ensures
        res@ == join(quoted(texts(parts@)), sep@),
{
    let mut res = String::new();
    let mut i: usize = 0;
    proof {
        reveal_strlit("'");
    }
    while i < parts.len()
        invariant
            i <= parts@.len(),
            res@ == join(quoted(texts(parts@.subrange(0, i as int))), sep@),
        decreases parts.len() - i,
    {
        proof {
            assert(quoted(texts(parts@.subrange(0, i + 1))).drop_last() =~= quoted(texts(parts@.subrange(0, i as int))));
            assert(quoted(texts(parts@.subrange(0, i + 1))).last() == "'"@ + parts@[i as int]@ + "'"@);
        }
        if i > 0 {
            res.append(sep);
        } else {
            assert(quoted(texts(parts@.subrange(0, 1))) =~= seq!["'"@ + parts@[0]@ + "'"@]);
        }
        res.append("'");
        res.append(parts[i].as_str());
        res.append("'");
        proof {
            if i > 0 {
                assert(res@ =~= join(quoted(texts(parts@.subrange(0, i as int))), sep@) + sep@ + ("'"@ + parts@[i as int]@ + "'"@));
            } else {
                assert(res@ =~= "'"@ + parts@[i as int]@ + "'"@);
            }
        }
        i = i + 1;
    }
    proof {
        assert(parts@.subrange(0, i as int) =~= parts@);
    }
    res
}

/// The "what would unlock this" half of a not-unlocked message. An empty
/// list is real: some recipes are unlocked by no technology at all, and the
/// remedy there is the available-recipes list, never research.
pub fn unlock_hint(unlocked_by: &Vec<String>) -> (res: String)
    ensures
        res@ == spec_unlock_hint(texts(unlocked_by@)),
{
    if unlocked_by.len() == 0 {
        String::from_str(
            "no technology unlocks it — tick it in the available-recipes list if you have it anyway",
        )
    } else {
        let mut res = String::from_str("it needs ");
        let names = join_quoted(unlocked_by, " or ");
        res.append(names.as_str());
        res.append(" — research it, or tick the recipe in the available-recipes list");
        proof {
            assert(res@ =~= spec_unlock_hint(texts(unlocked_by@)));
        }
        res
    }
}

fn digit_str(d: u32) -> (res: &'static str)
    requires
        d < 10,
    ensures
        res@ == seq![digit_char(d as nat)],
{
    proof {
        reveal_strlit("0");
        reveal_strlit("1");
        reveal_strlit("2");
        reveal_strlit("3");
        reveal_strlit("4");
        reveal_strlit("5");
        reveal_strlit("6");
        reveal_strlit("7");
        reveal_strlit("8");
        reveal_strlit("9");
    }
    if d == 0 { "0" }
    else if d == 1 { "1" }
    else if d == 2 { "2" }
    else if d == 3 { "3" }
    else if d == 4 { "4" }
    else if d == 5 { "5" }
    else if d == 6 { "6" }
    else if d == 7 { "7" }
    else if d == 8 { "8" }
    else { "9" }
}

/// `n` written in decimal.
pub fn decimal_string(n: u64) -> (res: String)
    ensures
        res@ == decimal(n as nat),
    decreases n,
{
    if n < 10 {
        String::from_str(digit_str(n as u32))
    } else {
        let mut res = decimal_string(n / 10);
        res.append(digit_str((n % 10) as u32));
        res
    }
}

/// `a` followed by `b`.
pub(crate) fn cat(a: &str, b: &str) -> (res: String)
    ensures
        res@ == a@ + b@,
{
    let mut res = String::from_str(a);
    res.append(b);
    res
}

impl ChainError {
    /// The message shown for this error.
    pub fn message(&self) -> (res: String)
        ensures
            res@ == spec_message(*self),
    {
        match self {
            ChainError::UnknownItem(x) => {
                let mut s = cat("'", x.as_str());
                s.append("' is not a known item — check the spelling, or it may be from a mod");
                s
            },
            ChainError::UnknownBeltTier(x) => {
                let mut s = cat("'", x.as_str());
                s.append(
                    "' is not a belt — give a belt prototype name such as 'transport-belt', 'fast-transport-belt', 'express-transport-belt' or 'turbo-transport-belt', or state the rate in items per second",
                );
                s
            },
            ChainError::FluidIngredient { recipe, fluid } => {
                let mut s = cat("recipe '", recipe.as_str());
                s.append("' needs the fluid '");
                s.append(fluid.as_str());
                s.append("', which cannot be carried on a belt — declare '");
                s.append(recipe.as_str());
                s.append(
                    "'s product available on the bus so the chain stops before it, or pick a goal that does not need fluids",
                );
                s
            },
            ChainError::AmbiguousRecipe { item, candidates } => {
                let mut s = cat("'", item.as_str());
                s.append("' can be made by more than one recipe (");
                let listed = join_names(candidates, ", ");
                s.append(listed.as_str());
                s.append(") — choose one with a recipe override for '");
                s.append(item.as_str());
                s.append("'");
                s
            },
            ChainError::NotUnlocked { item, unlocked_by } => {
                let mut s = cat("'", item.as_str());
                s.append("' cannot be built yet: ");
                let hint = unlock_hint(unlocked_by);
                s.append(hint.as_str());
                s
            },
            ChainError::RecipeLocked { item, unlocked_by, recipes } => {
                let mut s = cat("'", item.as_str());
                s.append("' cannot be built yet (its recipes ");
                let listed = join_quoted(recipes, ", ");
                s.append(listed.as_str());
                s.append(" are locked): ");
                let hint = unlock_hint(unlocked_by);
                s.append(hint.as_str());
                s
            },
            ChainError::NoMachineForCategory { category, recipe } => {
                let mut s = cat("no available machine can craft category '", category.as_str());
                s.append("' (needed by recipe '");
                s.append(recipe.as_str());
                s.append("') — pick a machine for that category in the machine policy");
                s
            },
            ChainError::MachineNotUnlocked { machine, unlocked_by } => {
                let mut s = cat("machine '", machine.as_str());
                s.append("' cannot be built yet: ");
                let hint = unlock_hint(unlocked_by);
                s.append(hint.as_str());
                s
            },
            ChainError::MachineLocked { machine, recipe, unlocked_by } => {
                let mut s = cat("machine '", machine.as_str());
                s.append("' (needed by recipe '");
                s.append(recipe.as_str());
                s.append("') cannot be built yet: ");
                let hint = unlock_hint(unlocked_by);
                s.append(hint.as_str());
                s
            },
            ChainError::UnreachableBoundary { item } => {
                let mut s = cat("'", item.as_str());
                s.append(
                    "' cannot be reached from what is available — it has no recipe and is not a raw resource, so declare it available on the bus",
                );
                s
            },
            ChainError::UnknownMachine { machine } => {
                let mut s = cat("'", machine.as_str());
                s.append("' is not a known entity — pick a machine that exists, or it may be from a mod");
                s
            },
            ChainError::DidNotConverge { product, iterations } => {
                let mut s = cat("the rates for '", product.as_str());
                s.append("' did not settle after ");
                let n = decimal_string(*iterations as u64);
                s.append(n.as_str());
                s.append(
                    " passes — this chain has a feedback loop that consumes more than it produces, so no steady state exists",
                );
                s
            },
        }
    }
}

} // verus!
