//! Named, actionable refusals from the block generator: each names the
//! offending recipe or entity and, where there is one, the remedy.
use vstd::prelude::*;

use crate::chain::error::{cat, decimal, decimal_string, join, join_names};
use crate::text::texts;

verus! {

/// A silently wrong blueprint looks right and costs real in-game time to
/// discover, so every refusal names what it refuses.
#[derive(Debug, Clone, PartialEq, Eq)]
pub enum LayoutError {
    /// A step whose recipe both consumes and produces the same item: that
    /// needs a self-looping return belt, which this generator does not build.
    CyclicStep { recipe: String, item: String },
    /// Not a transport belt (no belt throughput).
    BeltTierUnknown(String),
    /// Not an electric pole (no supply area).
    PoleUnknown(String),
    /// Not an inserter (no pickup or insert position).
    InserterUnknown(String),
    /// Not an inserter that reaches the outer belt of a pair.
    LongInserterUnknown(String),
    /// A step that moves a fluid, which cannot ride a belt.
    FluidOnBelt { recipe: String, item: String },
    TooManyIngredients { recipe: String, items: Vec<String> },
    TooManyOutputs { recipe: String, items: Vec<String> },
    /// The machine's gutter has fewer tiles than the inserters it needs.
    NoRoomForInserters { recipe: String, machine: String, needed: usize, edge_tiles: u32 },
    NoRoomForPole { step: String, pole: String },
    /// Nothing to build: everything asked for is already on the bus.
    EmptyPlan,
    /// A belt count outside 1..=2.
    InvalidTopology { field: String, value: u8 },
    /// A column owns its product lanes outright, so one cell carries one product.
    MultipleProducts { recipe: String, products: Vec<String> },
    TooManyIngredientsForLanes { recipe: String, ingredients: Vec<String>, lanes: u32 },
    /// A long inserter would reach past a machine this narrow.
    MachineTooNarrowForLongInserter { recipe: String, machine: String, width: u32 },
    MachineNotConnected { recipe: String, x: i32, y: i32, missing: String },
    Overlap { x: i32, y: i32 },
    Unpowered { recipe: String, x: i32, y: i32 },
    /// One belt run fed two different products by one recipe's inserters.
    MixedProductBelt { recipe: String, items: Vec<String>, x: i32, y: i32 },
}

/// `n` in decimal, with a leading minus sign when negative.
pub open spec fn signed_decimal(n: int) -> Seq<char> {
    if n < 0 {
        "-"@ + decimal((-n) as nat)
    } else {
        decimal(n as nat)
    }
}

/// `(x, y)` as a tile position.
pub open spec fn spec_position(x: int, y: int) -> Seq<char> {
    "("@ + signed_decimal(x) + ", "@ + signed_decimal(y) + ")"@
}

/// A count and the names counted, as in `3 products (a, b, c)`.
pub open spec fn counted(names: Seq<Seq<char>>, noun: Seq<char>) -> Seq<char> {
    decimal(names.len()) + " "@ + noun + " ("@ + join(names, ", "@) + ")"@
}

/// The message shown for `e`.
pub open spec fn spec_layout_message(e: LayoutError) -> Seq<char> {
    match e {
        LayoutError::CyclicStep { recipe, item } => "recipe `"@ + recipe@ + "` both consumes and produces `"@
            + item@
            + "`, and a self-looping step has no belt-fed layout yet — the chain calculator still gives you its ratios"@,
        LayoutError::BeltTierUnknown(x) => "`"@ + x@
            + "` is not a transport belt (no belt throughput in the prototype registry)"@,
        LayoutError::PoleUnknown(x) => "`"@ + x@ + "` is not an electric pole (no supply area in the prototype registry)"@,
        LayoutError::InserterUnknown(x) => "`"@ + x@
            + "` is not an inserter (no pickup/insert position in the prototype registry)"@,
        LayoutError::LongInserterUnknown(x) => "`"@ + x@
            + "` is not an inserter that reaches the outer belt of a pair (no pickup/insert position two tiles out in the prototype registry)"@,
        LayoutError::FluidOnBelt { recipe, item } => "recipe `"@ + recipe@ + "` moves `"@ + item@
            + "` as a fluid, and this generator only builds belt-fed item chains — declare a product that comes after the fluid instead"@,
        LayoutError::TooManyIngredients { recipe, items } => "recipe `"@ + recipe@ + "` needs "@
            + counted(texts(items@), "ingredients"@)
            + " but one input belt carries only two lanes — declare one of them available so it comes off the bus as its own block"@,
        LayoutError::TooManyOutputs { recipe, items } => "recipe `"@ + recipe@ + "` yields "@
            + counted(texts(items@), "products"@) + " but one output belt carries only two lanes"@,
        LayoutError::NoRoomForInserters { recipe, machine, needed, edge_tiles } => "`"@ + machine@ + "` has "@
            + decimal(edge_tiles as nat) + " tile(s) along its gutter but recipe `"@ + recipe@ + "` needs "@
            + decimal(needed as nat) + " inserters along that edge"@,
        LayoutError::NoRoomForPole { step, pole } => "no free cell within reach of every machine in step `"@
            + step@ + "` to put a `"@ + pole@ + "` — try a pole with a larger supply area"@,
        LayoutError::EmptyPlan => "the plan has no steps to build — everything asked for is already on the bus"@,
        LayoutError::InvalidTopology { field, value } => "cell topology `"@ + field@ + "` is "@
            + decimal(value as nat) + ", but a cell has 1 or 2 belts there"@,
        LayoutError::MultipleProducts { recipe, products } => "recipe `"@ + recipe@ + "` yields "@
            + counted(texts(products@), "products"@)
            + " but a column owns its product lanes outright, so one cell carries one product"@,
        LayoutError::TooManyIngredientsForLanes { recipe, ingredients, lanes } => "recipe `"@ + recipe@
            + "` needs "@ + counted(texts(ingredients@), "ingredients"@)
            + " but the cell's ingredient belts carry only "@ + decimal(lanes as nat) + " lanes"@,
        LayoutError::MachineTooNarrowForLongInserter { recipe, machine, width } => "`"@ + machine@ + "` is "@
            + decimal(width as nat) + " tile(s) wide, too narrow for recipe `"@ + recipe@
            + "`'s long inserter to reach past it to the outer belt"@,
        LayoutError::MachineNotConnected { recipe, x, y, missing } => "the `"@ + recipe@ + "` machine at "@
            + spec_position(x as int, y as int) + " has no "@ + missing@ + " inserter"@,
        LayoutError::Overlap { x, y } => "two entities overlap at "@ + spec_position(x as int, y as int),
        LayoutError::Unpowered { recipe, x, y } => "the `"@ + recipe@ + "` machine at "@
            + spec_position(x as int, y as int) + " is outside every pole's supply area"@,
        LayoutError::MixedProductBelt { recipe, items, x, y } => "recipe `"@ + recipe@ + "` feeds "@
            + join(texts(items@), " and "@) + " onto one belt run at "@ + spec_position(x as int, y as int)
            + " — each product needs a belt of its own"@,
    }
}

/// `n` written in decimal, with a minus sign when negative.
fn signed_decimal_string(n: i32) -> (res: String)
    ensures
        res@ == signed_decimal(n as int),
{
    if n < 0 {
        let magnitude: u64 = (0i64 - (n as i64)) as u64;
        let digits = decimal_string(magnitude);
        let res = cat("-", digits.as_str());
        proof {
            reveal_strlit("-");
        }
        res
    } else {
        decimal_string(n as u64)
    }
}

/// `(x, y)` written out.
fn position_string(x: i32, y: i32) -> (res: String)
    ensures
        res@ == spec_position(x as int, y as int),
{
    let mut s = String::from_str("(");
    let sx = signed_decimal_string(x);
    s.append(sx.as_str());
    s.append(", ");
    let sy = signed_decimal_string(y);
    s.append(sy.as_str());
    s.append(")");
    proof {
        reveal_strlit("(");
        reveal_strlit(", ");
        reveal_strlit(")");
    }
    s
}

/// `names.len()`, `noun`, and the names in brackets.
fn counted_string(names: &Vec<String>, noun: &str) -> (res: String)
    ensures
        res@ == counted(texts(names@), noun@),
{
    let mut s = decimal_string(names.len() as u64);
    s.append(" ");
    s.append(noun);
    s.append(" (");
    let listed = join_names(names, ", ");
    s.append(listed.as_str());
    s.append(")");
    proof {
        reveal_strlit(" ");
        reveal_strlit(" (");
        reveal_strlit(")");
        reveal_strlit(", ");
    }
    s
}

impl LayoutError {
    /// The message shown for this error.
    pub fn message(&self) -> (res: String)
        ensures
            res@ == spec_layout_message(*self),
    {
        match self {
            LayoutError::CyclicStep { recipe, item } => {
                let mut s = cat("recipe `", recipe.as_str());
                s.append("` both consumes and produces `");
                s.append(item.as_str());
                s.append(
                    "`, and a self-looping step has no belt-fed layout yet — the chain calculator still gives you its ratios",
                );
                s
            },
            LayoutError::BeltTierUnknown(x) => {
                let mut s = cat("`", x.as_str());
                s.append("` is not a transport belt (no belt throughput in the prototype registry)");
                s
            },
            LayoutError::PoleUnknown(x) => {
                let mut s = cat("`", x.as_str());
                s.append("` is not an electric pole (no supply area in the prototype registry)");
                s
            },
            LayoutError::InserterUnknown(x) => {
                let mut s = cat("`", x.as_str());
                s.append("` is not an inserter (no pickup/insert position in the prototype registry)");
                s
            },
            LayoutError::LongInserterUnknown(x) => {
                let mut s = cat("`", x.as_str());
                s.append(
                    "` is not an inserter that reaches the outer belt of a pair (no pickup/insert position two tiles out in the prototype registry)",
                );
                s
            },
            LayoutError::FluidOnBelt { recipe, item } => {
                let mut s = cat("recipe `", recipe.as_str());
                s.append("` moves `");
                s.append(item.as_str());
                s.append(
                    "` as a fluid, and this generator only builds belt-fed item chains — declare a product that comes after the fluid instead",
                );
                s
            },
            LayoutError::TooManyIngredients { recipe, items } => {
                let mut s = cat("recipe `", recipe.as_str());
                s.append("` needs ");
                let c = counted_string(items, "ingredients");
                s.append(c.as_str());
                s.append(
                    " but one input belt carries only two lanes — declare one of them available so it comes off the bus as its own block",
                );
                s
            },
            LayoutError::TooManyOutputs { recipe, items } => {
                let mut s = cat("recipe `", recipe.as_str());
                s.append("` yields ");
                let c = counted_string(items, "products");
                s.append(c.as_str());
                s.append(" but one output belt carries only two lanes");
                s
            },
            LayoutError::NoRoomForInserters { recipe, machine, needed, edge_tiles } => {
                let mut s = cat("`", machine.as_str());
                s.append("` has ");
                let t = decimal_string(*edge_tiles as u64);
                s.append(t.as_str());
                s.append(" tile(s) along its gutter but recipe `");
                s.append(recipe.as_str());
                s.append("` needs ");
                let n = decimal_string(*needed as u64);
                s.append(n.as_str());
                s.append(" inserters along that edge");
                s
            },
            LayoutError::NoRoomForPole { step, pole } => {
                let mut s = cat("no free cell within reach of every machine in step `", step.as_str());
                s.append("` to put a `");
                s.append(pole.as_str());
                s.append("` — try a pole with a larger supply area");
                s
            },
            LayoutError::EmptyPlan => {
                String::from_str("the plan has no steps to build — everything asked for is already on the bus")
            },
            LayoutError::InvalidTopology { field, value } => {
                let mut s = cat("cell topology `", field.as_str());
                s.append("` is ");
                let v = decimal_string(*value as u64);
                s.append(v.as_str());
                s.append(", but a cell has 1 or 2 belts there");
                s
            },
            LayoutError::MultipleProducts { recipe, products } => {
                let mut s = cat("recipe `", recipe.as_str());
                s.append("` yields ");
                let c = counted_string(products, "products");
                s.append(c.as_str());
                s.append(" but a column owns its product lanes outright, so one cell carries one product");
                s
            },
            LayoutError::TooManyIngredientsForLanes { recipe, ingredients, lanes } => {
                let mut s = cat("recipe `", recipe.as_str());
                s.append("` needs ");
                let c = counted_string(ingredients, "ingredients");
                s.append(c.as_str());
                s.append(" but the cell's ingredient belts carry only ");
                let l = decimal_string(*lanes as u64);
                s.append(l.as_str());
                s.append(" lanes");
                s
            },
            LayoutError::MachineTooNarrowForLongInserter { recipe, machine, width } => {
                let mut s = cat("`", machine.as_str());
                s.append("` is ");
                let w = decimal_string(*width as u64);
                s.append(w.as_str());
                s.append(" tile(s) wide, too narrow for recipe `");
                s.append(recipe.as_str());
                s.append("`'s long inserter to reach past it to the outer belt");
                s
            },
            LayoutError::MachineNotConnected { recipe, x, y, missing } => {
                let mut s = cat("the `", recipe.as_str());
                s.append("` machine at ");
                let p = position_string(*x, *y);
                s.append(p.as_str());
                s.append(" has no ");
                s.append(missing.as_str());
                s.append(" inserter");
                s
            },
            LayoutError::Overlap { x, y } => {
                let p = position_string(*x, *y);
                cat("two entities overlap at ", p.as_str())
            },
            LayoutError::Unpowered { recipe, x, y } => {
                let mut s = cat("the `", recipe.as_str());
                s.append("` machine at ");
                let p = position_string(*x, *y);
                s.append(p.as_str());
                s.append(" is outside every pole's supply area");
                s
            },
            LayoutError::MixedProductBelt { recipe, items, x, y } => {
                let mut s = cat("recipe `", recipe.as_str());
                s.append("` feeds ");
                let listed = join_names(items, " and ");
                s.append(listed.as_str());
                s.append(" onto one belt run at ");
                let p = position_string(*x, *y);
                s.append(p.as_str());
                s.append(" — each product needs a belt of its own");
                s
            },
        }
    }
}

} // verus!
