//! What a block build refuses up front, before any step is placed.
use vstd::prelude::*;

use crate::layout::error::LayoutError;
use crate::recipe::{consumes, yields, Recipe};
use crate::text::{chars_le, chars_lt, lemma_le_transitive, lemma_lt_total, lemma_lt_transitive, name_lt};

verus! {

/// `r` both consumes and produces `item`.
pub open spec fn loops_back(r: Recipe, item: Seq<char>) -> bool {
    yields(r, item) && consumes(r, item)
}

/// A step whose recipe both consumes and produces the same item needs a
/// return belt looping its output back to its input, which this generator
/// does not build: it is refused by recipe and by the least such item by
/// name, so the message is stable. Keyed on the recipe, where the loop is
/// defined.
pub fn reject_if_cyclic(recipe: &Recipe) -> (res: Result<(), LayoutError>)
    ensures
        res is Ok <==> forall|i: int| 0 <= i < recipe.results@.len() ==> !loops_back(*recipe, #[trigger] recipe.results@[i].name@),
        res matches Err(e) ==> (e matches LayoutError::CyclicStep { recipe: r, item } && r@ == recipe.name@ && loops_back(
            *recipe,
            item@,
        ) && forall|i: int| 0 <= i < recipe.results@.len() && loops_back(*recipe, #[trigger] recipe.results@[i].name@) ==> chars_le(
            item@,
            recipe.results@[i].name@,
        )),
{
    let mut best: Option<usize> = None;
    let mut i: usize = 0;
    while i < recipe.results.len()
        invariant
            i <= recipe.results@.len(),
            best matches Some(b) ==> b < i && loops_back(*recipe, recipe.results@[b as int].name@),
            best is None ==> forall|j: int| 0 <= j < i ==> !loops_back(*recipe, #[trigger] recipe.results@[j].name@),
            best matches Some(b) ==> forall|j: int| 0 <= j < i && loops_back(*recipe, #[trigger] recipe.results@[j].name@) ==> chars_le(
                recipe.results@[b as int].name@,
                recipe.results@[j].name@,
            ),
        decreases recipe.results.len() - i,
    {
        let name = recipe.results[i].name.as_str();
        if recipe.consumes_item(name) {
            proof {
                assert(recipe.results@[i as int].name@ == name@);
                assert(yields(*recipe, name@));
            }
            match best {
                None => {
                    best = Some(i);
                },
                Some(b) => {
                    let cur = recipe.results[b].name.as_str();
                    if name_lt(name, cur) {
                        proof {
                            assert forall|j: int| 0 <= j < i + 1 && loops_back(*recipe, #[trigger] recipe.results@[j].name@) implies chars_le(
                                name@,
                                recipe.results@[j].name@,
                            ) by {
                                if j < i {
                                    lemma_le_transitive(name@, cur@, recipe.results@[j].name@);
                                    if chars_lt(cur@, recipe.results@[j].name@) {
                                        lemma_lt_transitive(name@, cur@, recipe.results@[j].name@);
                                    }
                                }
                            }
                        }
                        best = Some(i);
                    } else {
                        proof {
                            lemma_lt_total(name@, cur@);
                        }
                    }
                },
            }
        }
        i = i + 1;
    }
    match best {
        None => Ok(()),
        Some(b) => {
            proof {
                let j = b as int;
                assert(!(forall|i: int| 0 <= i < recipe.results@.len() ==> !loops_back(*recipe, #[trigger] recipe.results@[i].name@))) by {
                    assert(loops_back(*recipe, recipe.results@[j].name@));
                }
            }
            Err(LayoutError::CyclicStep { recipe: recipe.name.clone(), item: recipe.results[b].name.clone() })
        },
    }
}

} // verus!
