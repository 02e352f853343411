//! The technology graph. It explains why something cannot be built yet;
//! nothing here gates which recipe or machine is chosen.
use vstd::prelude::*;

use crate::registry::{Named, Registry};
use crate::text::{chars_le, insert_sorted, is_sorted, name_eq, texts};

verus! {

/// One technology: what it needs first, and which recipes it unlocks.
#[derive(Debug, Clone, PartialEq, Eq)]
pub struct Technology {
    pub name: String,
    pub display_name: Option<String>,
    /// Technologies to research first, in the data's own order.
    pub prerequisites: Vec<String>,
    /// Recipe names this technology unlocks. Often empty: many technologies
    /// only grant bonuses.
    pub unlocks: Vec<String>,
}

impl Named for Technology {
    open spec fn key(&self) -> Seq<char> {
        self.name@
    }

    fn key_str(&self) -> (res: &str) {
        self.name.as_str()
    }
}

/// All technologies, keyed by name.
pub type TechRegistry = Registry<Technology>;

/// One copy of `name` for each entry of `unlocks` that is `recipe`.
pub open spec fn entries_for(unlocks: Seq<String>, name: Seq<char>, recipe: Seq<char>) -> Seq<
    Seq<char>,
>
    decreases unlocks.len(),
{
    if unlocks.len() == 0 {
        seq![]
    } else {
        entries_for(unlocks.drop_last(), name, recipe) + if unlocks.last()@ == recipe {
            seq![name]
        } else {
            seq![]
        }
    }
}

/// The name of every technology in `techs` once per time it lists `recipe`
/// among its unlocks, in registry order.
pub open spec fn unlocker_entries(techs: Seq<Technology>, recipe: Seq<char>) -> Seq<Seq<char>>
    decreases techs.len(),
{
    if techs.len() == 0 {
        seq![]
    } else {
        unlocker_entries(techs.drop_last(), recipe) + entries_for(
            techs.last().unlocks@,
            techs.last().name@,
            recipe,
        )
    }
}

/// Some technology in `techs` unlocks `recipe`.
pub open spec fn unlocked_by_some(techs: Seq<Technology>, recipe: Seq<char>) -> bool {
    exists|i: int| 0 <= i < techs.len() && texts(#[trigger] techs[i].unlocks@).contains(recipe)
}

proof fn lemma_entries_for_empty(unlocks: Seq<String>, name: Seq<char>, recipe: Seq<char>)
    ensures
        entries_for(unlocks, name, recipe).len() == 0 <==> !texts(unlocks).contains(recipe),
    decreases unlocks.len(),
{
    if unlocks.len() > 0 {
        lemma_entries_for_empty(unlocks.drop_last(), name, recipe);
        let t = texts(unlocks);
        let d = texts(unlocks.drop_last());
        assert(d =~= t.drop_last());
        if t.contains(recipe) {
            let k = choose|k: int| 0 <= k < t.len() && t[k] == recipe;
            if k < t.len() - 1 {
                assert(d[k] == recipe);
            }
        }
        if d.contains(recipe) {
            let k = choose|k: int| 0 <= k < d.len() && d[k] == recipe;
            assert(t[k] == recipe);
        }
        if unlocks.last()@ == recipe {
            assert(t[t.len() - 1] == recipe);
        }
    }
}

/// The unlocker list is empty exactly when no technology unlocks `recipe`.
pub proof fn lemma_unlocker_entries_empty(techs: Seq<Technology>, recipe: Seq<char>)
    ensures
        unlocker_entries(techs, recipe).len() == 0 <==> !unlocked_by_some(techs, recipe),
    decreases techs.len(),
{
    if techs.len() > 0 {
        let init = techs.drop_last();
        lemma_unlocker_entries_empty(init, recipe);
        lemma_entries_for_empty(techs.last().unlocks@, techs.last().name@, recipe);
        if unlocked_by_some(techs, recipe) {
            let i = choose|i: int|
                0 <= i < techs.len() && texts(#[trigger] techs[i].unlocks@).contains(recipe);
            if i < techs.len() - 1 {
                assert(init[i] == techs[i]);
            }
        }
        if unlocked_by_some(init, recipe) {
            let i = choose|i: int|
                0 <= i < init.len() && texts(#[trigger] init[i].unlocks@).contains(recipe);
            assert(techs[i] == init[i]);
        }
    }
}

impl Registry<Technology> {
    /// Whether some technology lists `recipe` among its unlocks.
    pub fn unlocks_recipe(&self, recipe: &str) -> (res: bool)
        ensures
            res == unlocked_by_some(self.spec_entries(), recipe@),
    {
        let techs = self.entries();
        let mut i: usize = 0;
        while i < techs.len()
            invariant
                techs@ == self.spec_entries(),
                i <= techs@.len(),
                forall|j: int| 0 <= j < i ==> !texts(#[trigger] techs@[j].unlocks@).contains(recipe@),
            decreases techs.len() - i,
        {
            if crate::text::contains_name(&techs[i].unlocks, recipe) {
                return true;
            }
            i = i + 1;
        }
        false
    }

    /// Names of the technologies whose unlocks list `recipe`, sorted; a
    /// technology that lists it twice is named twice. Empty for a recipe no
    /// technology unlocks, unknown names included.
    pub fn unlockers_for(&self, recipe: &str) -> (res: Vec<String>)
        ensures
            is_sorted(texts(res@)),
            texts(res@).to_multiset() == unlocker_entries(self.spec_entries(), recipe@).to_multiset(),
            res@.len() == 0 <==> !unlocked_by_some(self.spec_entries(), recipe@),
    {
        let techs = self.entries();
        let mut res: Vec<String> = Vec::new();
        let mut i: usize = 0;
        proof {
            assert(techs@.subrange(0, 0) =~= Seq::<Technology>::empty());
            assert(texts(res@) =~= Seq::<Seq<char>>::empty());
        }
        while i < techs.len()
            invariant
                techs@ == self.spec_entries(),
                i <= techs@.len(),
                is_sorted(texts(res@)),
                texts(res@).to_multiset() == unlocker_entries(
                    techs@.subrange(0, i as int),
                    recipe@,
                ).to_multiset(),
            decreases techs.len() - i,
        {
            let t = &techs[i];
            let mut k: usize = 0;
            while k < t.unlocks.len()
                invariant
                    i < techs@.len(),
                    *t == techs@[i as int],
                    k <= t.unlocks@.len(),
                    is_sorted(texts(res@)),
                    texts(res@).to_multiset() == (unlocker_entries(
                        techs@.subrange(0, i as int),
                        recipe@,
                    ) + entries_for(t.unlocks@.subrange(0, k as int), t.name@, recipe@)).to_multiset(),
                decreases t.unlocks.len() - k,
            {
                let ghost prev = unlocker_entries(techs@.subrange(0, i as int), recipe@);
                let ghost cur = t.unlocks@.subrange(0, k as int);
                proof {
                    assert(t.unlocks@.subrange(0, k + 1).drop_last() =~= cur);
                }
                if name_eq(t.unlocks[k].as_str(), recipe) {
                    let ghost before = texts(res@);
                    insert_sorted(&mut res, t.name.clone());
                    proof {
                        assert(entries_for(t.unlocks@.subrange(0, k + 1), t.name@, recipe@)
                            =~= entries_for(cur, t.name@, recipe@).push(t.name@));
                        vstd::seq_lib::to_multiset_build(prev + entries_for(cur, t.name@, recipe@), t.name@);
                        assert(prev + entries_for(t.unlocks@.subrange(0, k + 1), t.name@, recipe@)
                            =~= (prev + entries_for(cur, t.name@, recipe@)).push(t.name@));
                    }
                } else {
                    proof {
                        assert(entries_for(t.unlocks@.subrange(0, k + 1), t.name@, recipe@)
                            =~= entries_for(cur, t.name@, recipe@));
                    }
                }
                k = k + 1;
            }
            proof {
                assert(t.unlocks@.subrange(0, k as int) =~= t.unlocks@);
                assert(techs@.subrange(0, i + 1).drop_last() =~= techs@.subrange(0, i as int));
                assert(techs@.subrange(0, i + 1).last() == techs@[i as int]);
            }
            i = i + 1;
        }
        proof {
            assert(techs@.subrange(0, i as int) =~= techs@);
            lemma_unlocker_entries_empty(techs@, recipe@);
            vstd::seq_lib::to_multiset_len(texts(res@));
            vstd::seq_lib::to_multiset_len(unlocker_entries(techs@, recipe@));
        }
        res
    }
}

} // verus!
