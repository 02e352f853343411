//! Selection: which recipe makes an item, and which machine crafts a recipe.
use vstd::prelude::*;

use crate::availability::{allows_machine_spec, allows_spec, machine_unlocker_names, machine_unlockers, Availability};
use crate::chain::error::ChainError;
use crate::chain::goal::{MachineFallback, MachinePolicy};
use crate::names::{NameMap, NameSet};
use crate::prototype::{EntityPrototype, Frac, Prototypes};
use crate::recipe::{yields, Recipe, RecipeRegistry};
use crate::registry::Named;
use crate::tech::{TechRegistry, Technology};
use crate::text::{chars_lt, chars_of, is_strictly_sorted, lemma_lt_asymmetric, lemma_lt_total, lemma_lt_transitive, lemma_lt_irreflexive, name_eq, name_lt, texts};

verus! {

/// `s` begins with `prefix`.
pub open spec fn starts_with(s: Seq<char>, prefix: Seq<char>) -> bool {
    prefix.len() <= s.len() && s.subrange(0, prefix.len() as int) == prefix
}

/// Whether `s` begins with `prefix`.
pub fn text_starts_with(s: &str, prefix: &str) -> (res: bool)
    ensures
        res == starts_with(s@, prefix@),
{
    let x = chars_of(s);
    let p = chars_of(prefix);
    if p.len() > x.len() {
        return false;
    }
    let mut i: usize = 0;
    while i < p.len()
        invariant
            x@ == s@,
            p@ == prefix@,
            p@.len() <= x@.len(),
            i <= p@.len(),
            forall|j: int| 0 <= j < i ==> x@[j] == p@[j],
        decreases p.len() - i,
    {
        if x[i] != p[i] {
            assert(s@.subrange(0, prefix@.len() as int)[i as int] != prefix@[i as int]);
            return false;
        }
        i = i + 1;
    }
    assert(s@.subrange(0, prefix@.len() as int) =~= prefix@);
    true
}

/// `r` may be chosen to produce `item`: it yields it, it is not hidden, it
/// is no recycling recipe, and it does not declare some other main product.
pub open spec fn is_candidate(r: Recipe, item: Seq<char>) -> bool {
    &&& yields(r, item)
    &&& !r.hidden
    &&& !starts_with(r.category@, "recycling"@)
    &&& match r.main_product {
        Some(p) => p@ == item,
        None => true,
    }
}

/// The names of a list of recipes.
pub open spec fn recipe_names(rs: Seq<&Recipe>) -> Seq<Seq<char>> {
    rs.map_values(|r: &Recipe| r.name@)
}

/// `out` lists, in increasing name order, exactly the recipes of `all` for
/// which `pred` holds.
pub open spec fn lists_exactly(out: Seq<&Recipe>, all: Seq<Recipe>, pred: spec_fn(Recipe) -> bool) -> bool {
    &&& is_strictly_sorted(recipe_names(out))
    &&& forall|k: int| 0 <= k < out.len() ==> pred(*#[trigger] out[k]) && all.contains(*out[k])
    &&& forall|i: int| 0 <= i < all.len() && pred(#[trigger] all[i]) ==> out.contains(&all[i])
}

/// Whether `r` may be chosen to produce `item`.
pub fn candidate(r: &Recipe, item: &str) -> (res: bool)
    ensures
        res == is_candidate(*r, item@),
{
    proof {
        reveal_strlit("recycling");
    }
    if !r.yields_item(item) || r.hidden || text_starts_with(r.category.as_str(), "recycling") {
        return false;
    }
    match &r.main_product {
        Some(p) => name_eq(p.as_str(), item),
        None => true,
    }
}

/// Adds `r` to a list in increasing name order whose names differ from `r`'s.
fn insert_by_name<'a>(v: &mut Vec<&'a Recipe>, r: &'a Recipe)
    requires
        is_strictly_sorted(recipe_names(old(v)@)),
        !recipe_names(old(v)@).contains(r.name@),
    ensures
        is_strictly_sorted(recipe_names(final(v)@)),
        final(v)@.to_multiset() == old(v)@.to_multiset().insert(r),
        forall|x: &Recipe|
            #![trigger final(v)@.contains(x)]
            #![trigger old(v)@.contains(x)]
            final(v)@.contains(x) <==> (old(v)@.contains(x) || x == r),
{
    let ghost before = v@;
    let ghost names = recipe_names(before);
    let mut p: usize = 0;
    while p < v.len()
        invariant
            v@ == before,
            names == recipe_names(before),
            is_strictly_sorted(names),
            !names.contains(r.name@),
            p <= v@.len(),
            forall|j: int| 0 <= j < p ==> chars_lt(#[trigger] names[j], r.name@),
        ensures
            p <= v@.len(),
            forall|j: int| 0 <= j < p ==> chars_lt(#[trigger] names[j], r.name@),
            p < v@.len() ==> chars_lt(r.name@, names[p as int]),
        decreases v.len() - p,
    {
        assert(names[p as int] == v@[p as int].name@);
        if name_lt(r.name.as_str(), v[p].name.as_str()) {
            break;
        }
        proof {
            lemma_lt_total(r.name@, names[p as int]);
            assert(names[p as int] != r.name@);
        }
        p = p + 1;
    }
    proof {
        assert forall|k: int| p <= k < names.len() implies chars_lt(r.name@, #[trigger] names[k]) by {
            if k > p {
                lemma_lt_transitive(r.name@, names[p as int], names[k]);
            }
        }
    }
    v.insert(p, r);
    proof {
        assert(v@ =~= before.insert(p as int, r));
        let after = recipe_names(v@);
        assert(after =~= names.insert(p as int, r.name@));
        vstd::seq_lib::to_multiset_insert(before, p as int, r);
        assert forall|i: int, j: int| 0 <= i < j < after.len() implies chars_lt(
            #[trigger] after[i],
            #[trigger] after[j],
        ) by {
            if i < p && j > p {
                lemma_lt_transitive(names[i], r.name@, names[j - 1]);
            }
        }
        assert forall|x: &Recipe|
            #![trigger v@.contains(x)]
            #![trigger before.contains(x)]
            v@.contains(x) <==> (before.contains(x) || x == r) by {
            if v@.contains(x) {
                let k = choose|k: int| 0 <= k < v@.len() && v@[k] == x;
                if k < p {
                    assert(before[k] == x);
                    assert(before.contains(x));
                } else if k > p {
                    assert(before[k - 1] == x);
                    assert(before.contains(x));
                } else {
                    assert(x == r);
                }
            }
            if before.contains(x) {
                let k = choose|k: int| 0 <= k < before.len() && before[k] == x;
                if k < p {
                    assert(v@[k] == x);
                } else {
                    assert(v@[k + 1] == x);
                }
            }
            if x == r {
                assert(v@[p as int] == x);
            }
        }
    }
}

/// Every recipe that can be chosen to produce `item`, in name order.
pub fn candidates_for<'a>(item: &str, recipes: &'a RecipeRegistry) -> (res: Vec<&'a Recipe>)
    ensures
        lists_exactly(res@, recipes.spec_entries(), |r: Recipe| is_candidate(r, item@)),
{
    let rs = recipes.entries();
    let mut out: Vec<&'a Recipe> = Vec::new();
    let mut i: usize = 0;
    while i < rs.len()
        invariant
            rs@ == recipes.spec_entries(),
            crate::registry::unique_keys(rs@),
            i <= rs@.len(),
            is_strictly_sorted(recipe_names(out@)),
            forall|k: int| 0 <= k < out@.len() ==> is_candidate(*#[trigger] out@[k], item@) && in_prefix(rs@, i as int, *out@[k]),
            forall|j: int| 0 <= j < i && is_candidate(#[trigger] rs@[j], item@) ==> out@.contains(&rs@[j]),
        decreases rs.len() - i,
    {
        let r = &rs[i];
        let ghost old_out = out@;
        if candidate(r, item) {
            proof {
                assert forall|k: int| 0 <= k < out@.len() implies #[trigger] recipe_names(out@)[k] != r.name@ by {
                    assert(in_prefix(rs@, i as int, *out@[k]));
                    let j = choose|j: int| 0 <= j < i && rs@[j] == *out@[k];
                    assert(rs@[j].key() != rs@[i as int].key());
                }
            }
            insert_by_name(&mut out, r);
        }
        proof {
            assert forall|k: int| 0 <= k < out@.len() implies is_candidate(*#[trigger] out@[k], item@) && in_prefix(rs@, i + 1, *out@[k]) by {
                let x = out@[k];
                assert(out@.contains(x));
                if old_out.contains(x) {
                    let kk = choose|kk: int| 0 <= kk < old_out.len() && old_out[kk] == x;
                    assert(in_prefix(rs@, i as int, *old_out[kk]));
                    let j = choose|j: int| 0 <= j < i && rs@[j] == *old_out[kk];
                    assert(rs@[j] == *x && j < i + 1);
                } else {
                    assert(rs@[i as int] == *x);
                }
            }
            assert forall|j: int| 0 <= j < i + 1 && is_candidate(#[trigger] rs@[j], item@) implies out@.contains(&rs@[j]) by {
                if j < i {
                    assert(old_out.contains(&rs@[j]));
                }
            }
        }
        i = i + 1;
    }
    proof {
        assert forall|k: int| 0 <= k < out@.len() implies rs@.contains(*#[trigger] out@[k]) by {
            assert(in_prefix(rs@, i as int, *out@[k]));
            let j = choose|j: int| 0 <= j < i && rs@[j] == *out@[k];
        }
    }
    out
}

/// The candidates for `item` that `availability` allows, in name order.
pub fn available_candidates_for<'a>(
    item: &str,
    availability: &Availability,
    recipes: &'a RecipeRegistry,
    techs: &TechRegistry,
) -> (res: Vec<&'a Recipe>)
    ensures
        lists_exactly(
            res@,
            recipes.spec_entries(),
            |r: Recipe| is_candidate(r, item@) && allows_spec(*availability, r, techs.spec_entries()),
        ),
{
    let all = candidates_for(item, recipes);
    filter_allowed(&all, availability, techs, Ghost(recipes.spec_entries()), Ghost(item@))
}

fn filter_allowed<'a>(
    all: &Vec<&'a Recipe>,
    availability: &Availability,
    techs: &TechRegistry,
    Ghost(entries): Ghost<Seq<Recipe>>,
    Ghost(item): Ghost<Seq<char>>,
) -> (res: Vec<&'a Recipe>)
    requires
        lists_exactly(all@, entries, |r: Recipe| is_candidate(r, item)),
    ensures
        lists_exactly(
            res@,
            entries,
            |r: Recipe| is_candidate(r, item) && allows_spec(*availability, r, techs.spec_entries()),
        ),
        forall|k: int| 0 <= k < res@.len() ==> all@.contains(#[trigger] res@[k]),
{
    let mut out: Vec<&'a Recipe> = Vec::new();
    let mut i: usize = 0;
    while i < all.len()
        invariant
            lists_exactly(all@, entries, |r: Recipe| is_candidate(r, item)),
            i <= all@.len(),
            is_strictly_sorted(recipe_names(out@)),
            forall|k: int| 0 <= k < out@.len() ==> in_prefix(all@, i as int, #[trigger] out@[k])
                && allows_spec(*availability, *out@[k], techs.spec_entries()),
            forall|j: int| 0 <= j < i && allows_spec(*availability, *#[trigger] all@[j], techs.spec_entries())
                ==> out@.contains(all@[j]),
        decreases all.len() - i,
    {
        let r = all[i];
        let ghost old_out = out@;
        if availability.allows(r, techs) {
            proof {
                assert forall|a: int, b: int| 0 <= a < b < recipe_names(out@.push(r)).len() implies chars_lt(#[trigger] recipe_names(out@.push(r))[a], #[trigger] recipe_names(out@.push(r))[b]) by {
                    if b == out@.len() {
                        assert(in_prefix(all@, i as int, out@[a]));
                        let j = choose|j: int| 0 <= j < i && all@[j] == out@[a];
                        assert(recipe_names(all@)[j] == out@[a].name@);
                        assert(recipe_names(all@)[i as int] == r.name@);
                    } else {
                        assert(recipe_names(out@.push(r))[a] == recipe_names(out@)[a]);
                        assert(recipe_names(out@.push(r))[b] == recipe_names(out@)[b]);
                    }
                }
            }
            out.push(r);
        }
        proof {
            assert forall|k: int| 0 <= k < out@.len() implies in_prefix(all@, i + 1, #[trigger] out@[k])
                && allows_spec(*availability, *out@[k], techs.spec_entries()) by {
                if k < old_out.len() {
                    assert(out@[k] == old_out[k]);
                    assert(in_prefix(all@, i as int, old_out[k]));
                    let j = choose|j: int| 0 <= j < i && all@[j] == old_out[k];
                    assert(all@[j] == out@[k] && j < i + 1);
                } else {
                    assert(all@[i as int] == out@[k]);
                }
            }
            assert forall|j: int| 0 <= j < i + 1 && allows_spec(*availability, *#[trigger] all@[j], techs.spec_entries())
                implies out@.contains(all@[j]) by {
                if j < i {
                    assert(old_out.contains(all@[j]));
                    let kk = choose|kk: int| 0 <= kk < old_out.len() && old_out[kk] == all@[j];
                    assert(out@[kk] == all@[j]);
                } else {
                    assert(out@[out@.len() - 1] == all@[j]);
                }
            }
        }
        i = i + 1;
    }
    proof {
        assert forall|k: int| 0 <= k < out@.len() implies all@.contains(#[trigger] out@[k]) by {
            assert(in_prefix(all@, i as int, out@[k]));
            let j = choose|j: int| 0 <= j < i && all@[j] == out@[k];
        }
        assert forall|k: int| 0 <= k < out@.len() implies entries.contains(*#[trigger] out@[k]) by {
            assert(all@.contains(out@[k]));
            let j = choose|j: int| 0 <= j < all@.len() && all@[j] == out@[k];
            assert(entries.contains(*all@[j]));
        }
        assert forall|j: int| 0 <= j < entries.len() && is_candidate(#[trigger] entries[j], item) && allows_spec(*availability, entries[j], techs.spec_entries()) implies out@.contains(&entries[j]) by {
            assert(all@.contains(&entries[j]));
            let k = choose|k: int| 0 <= k < all@.len() && all@[k] == &entries[j];
        }
    }
    out
}

/// A list in strict name order stays in strict name order when filtered.
proof fn lemma_filter_sorted(c: Seq<&Recipe>, pred: spec_fn(&Recipe) -> bool)
    requires
        is_strictly_sorted(recipe_names(c)),
    ensures
        is_strictly_sorted(recipe_names(c.filter(pred))),
    decreases c.len(),
{
    reveal(Seq::filter);
    if c.len() > 0 {
        let rest = c.drop_last();
        assert forall|i: int, j: int| 0 <= i < j < recipe_names(rest).len() implies chars_lt(
            #[trigger] recipe_names(rest)[i],
            #[trigger] recipe_names(rest)[j],
        ) by {
            assert(recipe_names(rest)[i] == recipe_names(c)[i]);
            assert(recipe_names(rest)[j] == recipe_names(c)[j]);
        }
        lemma_filter_sorted(rest, pred);
        let f = rest.filter(pred);
        if pred(c.last()) {
            let g = f.push(c.last());
            assert forall|i: int, j: int| 0 <= i < j < recipe_names(g).len() implies chars_lt(
                #[trigger] recipe_names(g)[i],
                #[trigger] recipe_names(g)[j],
            ) by {
                if j == f.len() {
                    assert(f.contains(f[i]));
                    rest.lemma_filter_contains_rev(pred, f[i]);
                    let k = choose|k: int| 0 <= k < rest.len() && rest[k] == f[i];
                    assert(recipe_names(c)[k] == recipe_names(g)[i]);
                    assert(recipe_names(c)[c.len() - 1] == recipe_names(g)[j]);
                } else {
                    assert(recipe_names(g)[i] == recipe_names(f)[i]);
                    assert(recipe_names(g)[j] == recipe_names(f)[j]);
                }
            }
        }
    }
}

/// Two lists in strict name order holding the same recipes are the same list.
proof fn lemma_sorted_same_recipes(a: Seq<&Recipe>, b: Seq<&Recipe>)
    requires
        is_strictly_sorted(recipe_names(a)),
        is_strictly_sorted(recipe_names(b)),
        forall|x: &Recipe| a.contains(x) <==> b.contains(x),
    ensures
        a == b,
    decreases a.len(),
{
    if a.len() == 0 {
        if b.len() > 0 {
            assert(b.contains(b[0]));
        }
        assert(a =~= b);
    } else if b.len() == 0 {
        assert(a.contains(a[0]));
    } else {
        assert(a.contains(a[0]) && b.contains(b[0]));
        let j = choose|j: int| 0 <= j < a.len() && a[j] == b[0];
        let i = choose|i: int| 0 <= i < b.len() && b[i] == a[0];
        if j > 0 && i > 0 {
            assert(chars_lt(recipe_names(a)[0], recipe_names(a)[j]));
            assert(chars_lt(recipe_names(b)[0], recipe_names(b)[i]));
            lemma_lt_asymmetric(a[0].name@, b[0].name@);
        }
        assert(a[0] == b[0]);
        let a1 = a.subrange(1, a.len() as int);
        let b1 = b.subrange(1, b.len() as int);
        assert forall|p: int, q: int| 0 <= p < q < recipe_names(a1).len() implies chars_lt(
            #[trigger] recipe_names(a1)[p],
            #[trigger] recipe_names(a1)[q],
        ) by {
            assert(recipe_names(a1)[p] == recipe_names(a)[p + 1]);
            assert(recipe_names(a1)[q] == recipe_names(a)[q + 1]);
        }
        assert forall|p: int, q: int| 0 <= p < q < recipe_names(b1).len() implies chars_lt(
            #[trigger] recipe_names(b1)[p],
            #[trigger] recipe_names(b1)[q],
        ) by {
            assert(recipe_names(b1)[p] == recipe_names(b)[p + 1]);
            assert(recipe_names(b1)[q] == recipe_names(b)[q + 1]);
        }
        assert forall|x: &Recipe| a1.contains(x) <==> b1.contains(x) by {
            if a1.contains(x) {
                let k = choose|k: int| 0 <= k < a1.len() && a1[k] == x;
                assert(a[k + 1] == x && a.contains(x));
                let m = choose|m: int| 0 <= m < b.len() && b[m] == x;
                if m == 0 {
                    assert(chars_lt(recipe_names(a)[0], recipe_names(a)[k + 1]));
                    lemma_lt_irreflexive(x.name@);
                }
                assert(b1[m - 1] == x);
            }
            if b1.contains(x) {
                let k = choose|k: int| 0 <= k < b1.len() && b1[k] == x;
                assert(b[k + 1] == x && b.contains(x));
                let m = choose|m: int| 0 <= m < a.len() && a[m] == x;
                if m == 0 {
                    assert(chars_lt(recipe_names(b)[0], recipe_names(b)[k + 1]));
                    lemma_lt_irreflexive(x.name@);
                }
                assert(a1[m - 1] == x);
            }
        }
        lemma_sorted_same_recipes(a1, b1);
        assert(a =~= seq![a[0]] + a1);
        assert(b =~= seq![b[0]] + b1);
    }
}

/// The available candidates for an item are exactly its candidates that the
/// availability allows, in the same order: `available_candidates_for` is
/// `candidates_for` filtered by `Availability::allows`.
pub proof fn lemma_available_candidates_filter(
    item: Seq<char>,
    availability: Availability,
    recipes: RecipeRegistry,
    techs: TechRegistry,
    all: Seq<&Recipe>,
    available: Seq<&Recipe>,
)
    requires
        lists_exactly(all, recipes.spec_entries(), |r: Recipe| is_candidate(r, item)),
        lists_exactly(
            available,
            recipes.spec_entries(),
            |r: Recipe| is_candidate(r, item) && allows_spec(availability, r, techs.spec_entries()),
        ),
    ensures
        available == all.filter(|r: &Recipe| allows_spec(availability, *r, techs.spec_entries())),
{
    let entries = recipes.spec_entries();
    let pred = |r: &Recipe| allows_spec(availability, *r, techs.spec_entries());
    let f = all.filter(pred);
    lemma_filter_sorted(all, pred);
    assert forall|x: &Recipe| available.contains(x) <==> f.contains(x) by {
        if available.contains(x) {
            let k = choose|k: int| 0 <= k < available.len() && available[k] == x;
            assert(entries.contains(*available[k]));
            let i = choose|i: int| 0 <= i < entries.len() && entries[i] == *x;
            assert(is_candidate(entries[i], item));
            assert(all.contains(&entries[i]));
            let m = choose|m: int| 0 <= m < all.len() && all[m] == &entries[i];
            all.lemma_filter_contains(pred, m);
        }
        if f.contains(x) {
            let k = choose|k: int| 0 <= k < f.len() && f[k] == x;
            all.lemma_filter_pred(pred, k);
            all.lemma_filter_contains_rev(pred, x);
            let m = choose|m: int| 0 <= m < all.len() && all[m] == x;
            assert(entries.contains(*all[m]) && is_candidate(*all[m], item));
            let i = choose|i: int| 0 <= i < entries.len() && entries[i] == *x;
            assert(available.contains(&entries[i]));
        }
    }
    lemma_sorted_same_recipes(available, f);
}

/// Tech `t` unlocks one of `rs`.
pub open spec fn unlocks_one_of(t: Technology, rs: Seq<&Recipe>) -> bool {
    exists|k: int| 0 <= k < rs.len() && texts(t.unlocks@).contains(#[trigger] rs[k].name@)
}

/// Names of the technologies of `techs` that unlock one of `rs`.
pub open spec fn unlocker_names_of(rs: Seq<&Recipe>, techs: Seq<Technology>) -> Set<Seq<char>> {
    Set::new(
        |n: Seq<char>|
            exists|j: int| 0 <= j < techs.len() && #[trigger] techs[j].name@ == n && unlocks_one_of(techs[j], rs),
    )
}

/// Names of the technologies that would unlock some of `candidates`,
/// sorted and without repeats. May be empty: plenty of locked recipes sit
/// behind no technology at all.
pub fn unlockers_of(candidates: &Vec<&Recipe>, techs: &TechRegistry) -> (res: Vec<String>)
    ensures
        is_strictly_sorted(texts(res@)),
        texts(res@).to_set() == unlocker_names_of(candidates@, techs.spec_entries()),
{
    let ts = techs.entries();
    let mut names = NameSet::new();
    let mut j: usize = 0;
    while j < ts.len()
        invariant
            ts@ == techs.spec_entries(),
            j <= ts@.len(),
            forall|n: Seq<char>| names@.contains(n) <==> exists|t: int|
                0 <= t < j && #[trigger] ts@[t].name@ == n && unlocks_one_of(ts@[t], candidates@),
        decreases ts.len() - j,
    {
        let t = &ts[j];
        let mut k: usize = 0;
        let mut hit = false;
        while k < candidates.len()
            invariant
                j < ts@.len(),
                *t == ts@[j as int],
                k <= candidates@.len(),
                hit == exists|m: int| 0 <= m < k && texts(t.unlocks@).contains(#[trigger] candidates@[m].name@),
            decreases candidates.len() - k,
        {
            if !hit && crate::text::contains_name(&t.unlocks, candidates[k].name.as_str()) {
                hit = true;
            }
            k = k + 1;
        }
        if hit {
            names.insert(t.name.clone());
        }
        proof {
            assert forall|n: Seq<char>| names@.contains(n) <==> exists|t2: int|
                0 <= t2 < j + 1 && #[trigger] ts@[t2].name@ == n && unlocks_one_of(ts@[t2], candidates@) by {
                if names@.contains(n) && !(exists|t2: int| 0 <= t2 < j && #[trigger] ts@[t2].name@ == n && unlocks_one_of(ts@[t2], candidates@)) {
                    assert(ts@[j as int].name@ == n);
                }
            }
        }
        j = j + 1;
    }
    let res = names.into_names();
    proof {
        assert(texts(res@).to_set() =~= unlocker_names_of(candidates@, ts@));
    }
    res
}

/// The names of `rs`, in order.
pub(crate) fn names_of(rs: &Vec<&Recipe>) -> (res: Vec<String>)
    ensures
        texts(res@) == recipe_names(rs@),
        res@.len() == rs@.len(),
{
    let mut out: Vec<String> = Vec::new();
    let mut i: usize = 0;
    while i < rs.len()
        invariant
            i <= rs@.len(),
            texts(out@) == recipe_names(rs@.subrange(0, i as int)),
        decreases rs.len() - i,
    {
        let ghost before = out@;
        let n = rs[i].name.clone();
        out.push(n);
        proof {
            assert(texts(out@) =~= texts(before).push(rs@[i as int].name@));
            assert(recipe_names(rs@.subrange(0, i + 1)) =~= recipe_names(rs@.subrange(0, i as int)).push(rs@[i as int].name@));
        }
        i = i + 1;
    }
    proof {
        assert(rs@.subrange(0, i as int) =~= rs@);
    }
    out
}

/// `r` may be chosen for `item` and `a` allows it.
pub open spec fn allowed_candidate(r: Recipe, item: Seq<char>, a: Availability, techs: Seq<Technology>) -> bool {
    is_candidate(r, item) && allows_spec(a, r, techs)
}

/// Some recipe of `recipes` may be chosen for `item`.
pub open spec fn has_candidate(recipes: Seq<Recipe>, item: Seq<char>) -> bool {
    exists|i: int| 0 <= i < recipes.len() && is_candidate(#[trigger] recipes[i], item)
}

/// The names of the recipes of `recipes` that pass `pred`.
pub open spec fn names_where(recipes: Seq<Recipe>, pred: spec_fn(Recipe) -> bool) -> Set<Seq<char>> {
    Set::new(|n: Seq<char>| exists|i: int| 0 <= i < recipes.len() && #[trigger] recipes[i].name@ == n && pred(recipes[i]))
}

/// The rules `select_recipe` follows, for one outcome.
pub open spec fn selected_recipe(
    item: Seq<char>,
    overrides: Map<Seq<char>, Seq<char>>,
    a: Availability,
    recipes: Seq<Recipe>,
    techs: Seq<Technology>,
    res: Result<Recipe, ChainError>,
) -> bool {
    if overrides.contains_key(item) {
        let wanted = overrides[item];
        match res {
            Ok(r) => r.name@ == wanted && recipes.contains(r),
            Err(ChainError::UnknownItem(n)) => n@ == wanted && forall|i: int|
                0 <= i < recipes.len() ==> #[trigger] recipes[i].name@ != wanted,
            Err(_) => false,
        }
    } else {
        match res {
            Ok(r) => recipes.contains(r) && allowed_candidate(r, item, a, techs) && forall|i: int|
                0 <= i < recipes.len() && allowed_candidate(#[trigger] recipes[i], item, a, techs)
                    ==> recipes[i] == r,
            Err(ChainError::UnreachableBoundary { item: x }) => x@ == item && !has_candidate(recipes, item),
            Err(ChainError::AmbiguousRecipe { item: x, candidates }) => {
                &&& x@ == item
                &&& candidates@.len() >= 2
                &&& is_strictly_sorted(texts(candidates@))
                &&& texts(candidates@).to_set() == names_where(recipes, |r: Recipe| allowed_candidate(r, item, a, techs))
            },
            Err(ChainError::RecipeLocked { item: x, unlocked_by, recipes: rs }) => {
                &&& x@ == item
                &&& has_candidate(recipes, item)
                &&& forall|i: int| 0 <= i < recipes.len() ==> !allowed_candidate(#[trigger] recipes[i], item, a, techs)
                &&& is_strictly_sorted(texts(rs@))
                &&& texts(rs@).to_set() == names_where(recipes, |r: Recipe| is_candidate(r, item))
                &&& is_strictly_sorted(texts(unlocked_by@))
                &&& texts(unlocked_by@).to_set() == candidate_unlocker_names(recipes, techs, item)
            },
            Err(_) => false,
        }
    }
}

/// Tech `t` unlocks some recipe that may be chosen for `item`.
pub open spec fn unlocks_a_candidate(t: Technology, recipes: Seq<Recipe>, item: Seq<char>) -> bool {
    exists|i: int| 0 <= i < recipes.len() && is_candidate(#[trigger] recipes[i], item) && texts(t.unlocks@).contains(recipes[i].name@)
}

/// Names of the technologies that unlock some recipe that may be chosen for `item`.
pub open spec fn candidate_unlocker_names(recipes: Seq<Recipe>, techs: Seq<Technology>, item: Seq<char>) -> Set<Seq<char>> {
    Set::new(
        |n: Seq<char>|
            exists|j: int| 0 <= j < techs.len() && #[trigger] techs[j].name@ == n && unlocks_a_candidate(techs[j], recipes, item),
    )
}

pub(crate) proof fn lemma_candidate_unlockers(cands: Seq<&Recipe>, recipes: Seq<Recipe>, techs: Seq<Technology>, item: Seq<char>)
    requires
        lists_exactly(cands, recipes, |r: Recipe| is_candidate(r, item)),
    ensures
        unlocker_names_of(cands, techs) == candidate_unlocker_names(recipes, techs, item),
{
    assert forall|j: int| 0 <= j < techs.len() implies unlocks_one_of(#[trigger] techs[j], cands) == unlocks_a_candidate(techs[j], recipes, item) by {
        let t = techs[j];
        if unlocks_one_of(t, cands) {
            let k = choose|k: int| 0 <= k < cands.len() && texts(t.unlocks@).contains(#[trigger] cands[k].name@);
            assert(recipes.contains(*cands[k]));
            let i = choose|i: int| 0 <= i < recipes.len() && recipes[i] == *cands[k];
            assert(is_candidate(recipes[i], item));
        }
        if unlocks_a_candidate(t, recipes, item) {
            let i = choose|i: int| 0 <= i < recipes.len() && is_candidate(#[trigger] recipes[i], item) && texts(t.unlocks@).contains(recipes[i].name@);
            assert(cands.contains(&recipes[i]));
            let k = choose|k: int| 0 <= k < cands.len() && cands[k] == &recipes[i];
            assert(texts(t.unlocks@).contains(cands[k].name@));
        }
    }
    assert(unlocker_names_of(cands, techs) =~= candidate_unlocker_names(recipes, techs, item));
}

pub(crate) proof fn lemma_listed_names(cands: Seq<&Recipe>, recipes: Seq<Recipe>, pred: spec_fn(Recipe) -> bool)
    requires
        lists_exactly(cands, recipes, pred),
    ensures
        recipe_names(cands).to_set() == names_where(recipes, pred),
{
    assert forall|n: Seq<char>| recipe_names(cands).to_set().contains(n) <==> names_where(recipes, pred).contains(n) by {
        if recipe_names(cands).to_set().contains(n) {
            let k = choose|k: int| 0 <= k < recipe_names(cands).len() && recipe_names(cands)[k] == n;
            assert(recipes.contains(*cands[k]));
            let i = choose|i: int| 0 <= i < recipes.len() && recipes[i] == *cands[k];
            assert(recipes[i].name@ == n && pred(recipes[i]));
        }
        if names_where(recipes, pred).contains(n) {
            let i = choose|i: int| 0 <= i < recipes.len() && #[trigger] recipes[i].name@ == n && pred(recipes[i]);
            assert(cands.contains(&recipes[i]));
            let k = choose|k: int| 0 <= k < cands.len() && cands[k] == &recipes[i];
            assert(recipe_names(cands)[k] == n);
        }
    }
    assert(recipe_names(cands).to_set() =~= names_where(recipes, pred));
}

/// Picks the one recipe that produces `item`: an override wins outright,
/// whether or not the player can build it; otherwise exactly one candidate
/// `availability` allows must remain. It never guesses between several.
pub fn select_recipe<'a>(
    item: &str,
    overrides: &NameMap,
    availability: &Availability,
    recipes: &'a RecipeRegistry,
    techs: &TechRegistry,
) -> (res: Result<&'a Recipe, ChainError>)
    ensures
        selected_recipe(
            item@,
            overrides@,
            *availability,
            recipes.spec_entries(),
            techs.spec_entries(),
            match res {
                Ok(r) => Ok(*r),
                Err(e) => Err(e),
            },
        ),
{
    let all = recipes.entries();
    if let Some(recipe_name) = overrides.get(item) {
        return match recipes.get(recipe_name.as_str()) {
            Some(r) => Ok(r),
            None => {
                proof {
                    assert forall|i: int| 0 <= i < all@.len() implies #[trigger] all@[i].name@ != recipe_name@ by {
                        assert(all@[i].key() != recipe_name@);
                    }
                }
                Err(ChainError::UnknownItem(recipe_name.clone()))
            },
        };
    }
    let candidates = candidates_for(item, recipes);
    if candidates.len() == 0 {
        proof {
            assert forall|i: int| 0 <= i < all@.len() implies !is_candidate(#[trigger] all@[i], item@) by {
                if is_candidate(all@[i], item@) {
                    assert(candidates@.contains(&all@[i]));
                }
            }
        }
        return Err(ChainError::UnreachableBoundary { item: String::from_str(item) });
    }
    let available = filter_allowed(&candidates, availability, techs, Ghost(all@), Ghost(item@));
    proof {
        assert(candidates@.contains(candidates@[0]));
        assert(all@.contains(*candidates@[0]));
    }
    if available.len() == 1 {
        let r = available[0];
        proof {
            assert forall|i: int| 0 <= i < all@.len() && allowed_candidate(#[trigger] all@[i], item@, *availability, techs.spec_entries()) implies all@[i] == *r by {
                assert(available@.contains(&all@[i]));
                assert(available@[0] == &all@[i]);
            }
            assert(allows_spec(*availability, *available@[0], techs.spec_entries()));
            assert(all@.contains(*r));
        }
        Ok(r)
    } else if available.len() > 1 {
        let names = names_of(&available);
        proof {
            lemma_listed_names(available@, all@, |r: Recipe| allowed_candidate(r, item@, *availability, techs.spec_entries()));
        }
        Err(ChainError::AmbiguousRecipe { item: String::from_str(item), candidates: names })
    } else {
        let unlocked_by = unlockers_of(&candidates, techs);
        let names = names_of(&candidates);
        proof {
            lemma_candidate_unlockers(candidates@, all@, techs.spec_entries(), item@);
            lemma_listed_names(candidates@, all@, |r: Recipe| is_candidate(r, item@));
            assert forall|i: int| 0 <= i < all@.len() implies !allowed_candidate(#[trigger] all@[i], item@, *availability, techs.spec_entries()) by {
                if allowed_candidate(all@[i], item@, *availability, techs.spec_entries()) {
                    assert(available@.contains(&all@[i]));
                }
            }
            let k = choose|k: int| 0 <= k < all@.len() && all@[k] == *candidates@[0];
            assert(is_candidate(all@[k], item@));
        }
        Err(ChainError::RecipeLocked { item: String::from_str(item), unlocked_by, recipes: names })
    }
}

/// The machine a policy names for `category`, if it names one: the
/// category's preference first, then a named fallback.
pub open spec fn named_machine(policy: MachinePolicy, category: Seq<char>) -> Option<Seq<char>> {
    if policy.preferred@.contains_key(category) {
        Some(policy.preferred@[category])
    } else {
        match policy.fallback {
            MachineFallback::Named(m) => Some(m@),
            MachineFallback::FastestAvailable => None,
        }
    }
}

/// `p` covers `category` and has a crafting speed.
pub open spec fn covers(p: EntityPrototype, category: Seq<char>) -> bool {
    texts(p.crafting_categories@).contains(category) && p.crafting_speed is Some
}

/// `p` wins over `q`: strictly faster, or as fast with the lower name.
pub open spec fn outranks(p: EntityPrototype, q: EntityPrototype) -> bool {
    let a = p.crafting_speed.unwrap();
    let b = q.crafting_speed.unwrap();
    b.spec_lt(a) || (a.spec_eq(b) && chars_lt(p.name@, q.name@))
}

/// `p` is the one of `protos` passing `pred` that outranks every other.
pub open spec fn is_fastest(p: EntityPrototype, protos: Seq<EntityPrototype>, pred: spec_fn(EntityPrototype) -> bool) -> bool {
    &&& protos.contains(p)
    &&& pred(p)
    &&& forall|i: int| 0 <= i < protos.len() && pred(#[trigger] protos[i]) && protos[i].name@ != p.name@ ==> outranks(p, protos[i])
}

/// Some prototype of `protos` passes `pred`.
pub open spec fn some_proto(protos: Seq<EntityPrototype>, pred: spec_fn(EntityPrototype) -> bool) -> bool {
    exists|i: int| 0 <= i < protos.len() && pred(#[trigger] protos[i])
}

proof fn lemma_frac_order(a: Frac, b: Frac, c: Frac)
    requires
        a.wf(),
        b.wf(),
        c.wf(),
    ensures
        a.spec_lt(b) && b.spec_lt(c) ==> a.spec_lt(c),
        a.spec_lt(b) && b.spec_eq(c) ==> a.spec_lt(c),
        a.spec_eq(b) && b.spec_lt(c) ==> a.spec_lt(c),
        a.spec_eq(b) && b.spec_eq(c) ==> a.spec_eq(c),
        a.spec_lt(b) || b.spec_lt(a) || a.spec_eq(b),
        a.spec_lt(b) ==> !b.spec_lt(a) && !a.spec_eq(b),
        b.spec_eq(a) == a.spec_eq(b),
{
    let (x, y, z) = (a.num as int, b.num as int, c.num as int);
    let (p, q, r) = (a.den as int, b.den as int, c.den as int);
    assert(x * q < y * p && y * r < z * q ==> x * r < z * p) by (nonlinear_arith)
        requires p > 0, q > 0, r > 0;
    assert(x * q < y * p && y * r == z * q ==> x * r < z * p) by (nonlinear_arith)
        requires p > 0, q > 0, r > 0;
    assert(x * q == y * p && y * r < z * q ==> x * r < z * p) by (nonlinear_arith)
        requires p > 0, q > 0, r > 0;
    assert(x * q == y * p && y * r == z * q ==> x * r == z * p) by (nonlinear_arith)
        requires p > 0, q > 0, r > 0;
}

proof fn lemma_outranks(p: EntityPrototype, q: EntityPrototype, r: EntityPrototype)
    requires
        p.wf(),
        q.wf(),
        r.wf(),
        p.crafting_speed is Some,
        q.crafting_speed is Some,
        r.crafting_speed is Some,
    ensures
        outranks(p, q) && outranks(q, r) ==> outranks(p, r),
        p.name@ != q.name@ ==> outranks(p, q) || outranks(q, p),
        outranks(p, q) ==> !outranks(q, p),
{
    let (a, b, c) = (p.crafting_speed.unwrap(), q.crafting_speed.unwrap(), r.crafting_speed.unwrap());
    lemma_frac_order(a, b, c);
    lemma_frac_order(b, a, c);
    lemma_frac_order(c, b, a);
    lemma_frac_order(b, c, a);
    lemma_frac_order(a, c, b);
    lemma_frac_order(c, a, b);
    if chars_lt(p.name@, q.name@) && chars_lt(q.name@, r.name@) {
        lemma_lt_transitive(p.name@, q.name@, r.name@);
    }
    lemma_lt_total(p.name@, q.name@);
    if chars_lt(p.name@, q.name@) {
        crate::text::lemma_lt_asymmetric(p.name@, q.name@);
    }
}

/// Whether `p` wins over the machine found so far.
fn beats(p: &EntityPrototype, current: Option<&EntityPrototype>) -> (res: bool)
    requires
        p.wf(),
        p.crafting_speed is Some,
        current matches Some(c) ==> c.wf() && c.crafting_speed is Some,
    ensures
        res == match current {
            None => true,
            Some(c) => outranks(*p, *c),
        },
{
    match current {
        None => true,
        Some(cur) => {
            let speed = p.crafting_speed.unwrap();
            let cur_speed = cur.crafting_speed.unwrap();
            cur_speed.lt(&speed) || (speed.same_value(&cur_speed) && name_lt(p.name.as_str(), cur.name.as_str()))
        },
    }
}

/// What `select_machine` answers, for one outcome.
pub open spec fn selected_machine(
    recipe: Recipe,
    policy: MachinePolicy,
    a: Availability,
    protos: Seq<EntityPrototype>,
    recipes: Seq<Recipe>,
    techs: Seq<Technology>,
    res: Result<EntityPrototype, ChainError>,
) -> bool {
    let category = recipe.category@;
    let allowed = |p: EntityPrototype| allows_machine_spec(a, recipes, techs, p.name@);
    match named_machine(policy, category) {
        Some(m) => match res {
            Ok(p) => p.name@ == m && protos.contains(p) && texts(p.crafting_categories@).contains(category) && allowed(p),
            Err(ChainError::UnknownMachine { machine }) => machine@ == m && forall|i: int| 0 <= i < protos.len() ==> #[trigger] protos[i].name@ != m,
            Err(ChainError::NoMachineForCategory { category: c, recipe: r }) => c@ == category && r@ == recipe.name@
                && exists|i: int| 0 <= i < protos.len() && #[trigger] protos[i].name@ == m && !texts(protos[i].crafting_categories@).contains(category),
            Err(ChainError::MachineLocked { machine, recipe: r, unlocked_by }) => {
                &&& machine@ == m
                &&& r@ == recipe.name@
                &&& exists|i: int| 0 <= i < protos.len() && #[trigger] protos[i].name@ == m && texts(protos[i].crafting_categories@).contains(category)
                &&& !allows_machine_spec(a, recipes, techs, m)
                &&& is_strictly_sorted(texts(unlocked_by@))
                &&& texts(unlocked_by@).to_set() == machine_unlocker_names(recipes, techs, m)
            },
            Err(_) => false,
        },
        None => match res {
            Ok(p) => is_fastest(p, protos, |q: EntityPrototype| covers(q, category) && allowed(q)),
            Err(ChainError::MachineLocked { machine, recipe: r, unlocked_by }) => {
                &&& r@ == recipe.name@
                &&& !some_proto(protos, |q: EntityPrototype| covers(q, category) && allowed(q))
                &&& exists|i: int| 0 <= i < protos.len() && #[trigger] protos[i].name@ == machine@
                    && is_fastest(protos[i], protos, |q: EntityPrototype| covers(q, category))
                &&& is_strictly_sorted(texts(unlocked_by@))
                &&& texts(unlocked_by@).to_set() == machine_unlocker_names(recipes, techs, machine@)
            },
            Err(ChainError::NoMachineForCategory { category: c, recipe: r }) => c@ == category && r@ == recipe.name@
                && !some_proto(protos, |q: EntityPrototype| covers(q, category)),
            Err(_) => false,
        },
    }
}

/// Picks the machine that crafts `recipe`'s category under `policy` and
/// `availability`. A named or preferred machine must exist, cover the
/// category, and be obtainable, in that order of checks; a locked one is an
/// error, never a downgrade. With no name, the fastest obtainable machine
/// covering the category wins (ties to the lower name); if every machine
/// covering it is locked, the fastest of them is named with its lock.
pub fn select_machine<'a>(
    recipe: &Recipe,
    policy: &MachinePolicy,
    availability: &Availability,
    protos: &'a Prototypes,
    recipes: &RecipeRegistry,
    techs: &TechRegistry,
) -> (res: Result<&'a EntityPrototype, ChainError>)
    ensures
        selected_machine(
            *recipe,
            *policy,
            *availability,
            protos.spec_entries(),
            recipes.spec_entries(),
            techs.spec_entries(),
            match res {
                Ok(p) => Ok(*p),
                Err(e) => Err(e),
            },
        ),
        res matches Ok(p) ==> p.wf(),
{
    let category = recipe.category.as_str();
    let named: Option<&String> = match policy.preferred.get(category) {
        Some(m) => Some(m),
        None => match &policy.fallback {
            MachineFallback::Named(m) => Some(m),
            MachineFallback::FastestAvailable => None,
        },
    };
    let all = protos.entries();
    if let Some(machine) = named {
        let proto = match protos.lookup(machine.as_str()) {
            Some(p) => p,
            None => {
                return Err(ChainError::UnknownMachine { machine: machine.clone() });
            },
        };
        if !proto.crafts(category) {
            return Err(ChainError::NoMachineForCategory {
                category: recipe.category.clone(),
                recipe: recipe.name.clone(),
            });
        }
        if availability.allows_machine(machine.as_str(), recipes, techs) {
            return Ok(proto);
        } else {
            return Err(ChainError::MachineLocked {
                machine: machine.clone(),
                recipe: recipe.name.clone(),
                unlocked_by: machine_unlockers(machine.as_str(), recipes, techs),
            });
        }
    }
    let ghost allowed = |p: EntityPrototype| allows_machine_spec(*availability, recipes.spec_entries(), techs.spec_entries(), p.name@);
    let ghost cov = |q: EntityPrototype| covers(q, category@);
    let ghost cov_allowed = |q: EntityPrototype| covers(q, category@) && allowed(q);
    let mut best_available: Option<&'a EntityPrototype> = None;
    let mut best_overall: Option<&'a EntityPrototype> = None;
    let mut i: usize = 0;
    while i < all.len()
        invariant
            all@ == protos.spec_entries(),
            crate::prototype::all_wf(all@),
            crate::registry::unique_keys(all@),
            i <= all@.len(),
            cov == (|q: EntityPrototype| covers(q, category@)),
            cov_allowed == (|q: EntityPrototype| covers(q, category@) && allowed(q)),
            allowed == (|p: EntityPrototype| allows_machine_spec(*availability, recipes.spec_entries(), techs.spec_entries(), p.name@)),
            best_overall matches Some(b) ==> is_fastest(*b, all@.subrange(0, i as int), cov) && b.wf(),
            best_overall is None ==> !some_proto(all@.subrange(0, i as int), cov),
            best_available matches Some(b) ==> is_fastest(*b, all@.subrange(0, i as int), cov_allowed) && b.wf(),
            best_available is None ==> !some_proto(all@.subrange(0, i as int), cov_allowed),
        decreases all.len() - i,
    {
        let p = &all[i];
        let ghost pre = all@.subrange(0, i as int);
        let ghost post = all@.subrange(0, i + 1);
        proof {
            assert(post =~= pre.push(*p));
        }
        if p.crafts(category) && p.crafting_speed.is_some() {
            proof {
                assert(p.wf());
            }
            if beats(p, best_overall) {
                proof {
                    lemma_new_best(pre, *p, best_overall, cov);
                }
                best_overall = Some(p);
            } else {
                proof {
                    lemma_keep_best(pre, *p, best_overall.unwrap(), cov);
                }
            }
            if availability.allows_machine(p.name.as_str(), recipes, techs) {
                if beats(p, best_available) {
                    proof {
                        lemma_new_best(pre, *p, best_available, cov_allowed);
                    }
                    best_available = Some(p);
                } else {
                    proof {
                        lemma_keep_best(pre, *p, best_available.unwrap(), cov_allowed);
                    }
                }
            } else {
                proof {
                    lemma_skip(pre, *p, best_available, cov_allowed);
                }
            }
        } else {
            proof {
                lemma_skip(pre, *p, best_overall, cov);
                lemma_skip(pre, *p, best_available, cov_allowed);
            }
        }
        i = i + 1;
    }
    proof {
        assert(all@.subrange(0, i as int) =~= all@);
    }
    match best_available {
        Some(p) => Ok(p),
        None => match best_overall {
            Some(p) => {
                let unlocked_by = machine_unlockers(p.name.as_str(), recipes, techs);
                proof {
                    let k = choose|k: int| 0 <= k < all@.len() && all@[k] == *p;
                    assert(all@[k].name@ == p.name@);
                }
                Err(ChainError::MachineLocked {
                    machine: p.name.clone(),
                    recipe: recipe.name.clone(),
                    unlocked_by,
                })
            },
            None => Err(ChainError::NoMachineForCategory {
                category: recipe.category.clone(),
                recipe: recipe.name.clone(),
            }),
        },
    }
}

proof fn lemma_new_best(
    pre: Seq<EntityPrototype>,
    p: EntityPrototype,
    best: Option<&EntityPrototype>,
    pred: spec_fn(EntityPrototype) -> bool,
)
    requires
        crate::prototype::all_wf(pre.push(p)),
        crate::registry::unique_keys(pre.push(p)),
        pred(p),
        p.crafting_speed is Some,
        forall|q: EntityPrototype| pred(q) ==> q.crafting_speed is Some,
        best matches Some(b) ==> is_fastest(*b, pre, pred) && b.wf() && outranks(p, *b),
        best is None ==> !some_proto(pre, pred),
    ensures
        is_fastest(p, pre.push(p), pred),
{
    let post = pre.push(p);
    assert(post[pre.len() as int] == p);
    assert forall|i: int| 0 <= i < post.len() && pred(#[trigger] post[i]) && post[i].name@ != p.name@ implies outranks(p, post[i]) by {
        assert(i < pre.len());
        assert(post[i] == pre[i]);
        let b = *best.unwrap();
        if pre[i].name@ != b.name@ {
            assert(outranks(b, pre[i]));
            assert(pre.contains(b));
            let k = choose|k: int| 0 <= k < pre.len() && pre[k] == b;
            assert(post[k] == b);
            lemma_outranks(p, b, pre[i]);
        } else {
            let k = choose|k: int| 0 <= k < pre.len() && pre[k] == b;
            assert(post[k].key() == post[i].key());
            assert(k == i);
        }
    }
}

proof fn lemma_keep_best(
    pre: Seq<EntityPrototype>,
    p: EntityPrototype,
    b: &EntityPrototype,
    pred: spec_fn(EntityPrototype) -> bool,
)
    requires
        crate::prototype::all_wf(pre.push(p)),
        crate::registry::unique_keys(pre.push(p)),
        pred(p),
        p.crafting_speed is Some,
        forall|q: EntityPrototype| pred(q) ==> q.crafting_speed is Some,
        is_fastest(*b, pre, pred),
        b.wf(),
        !outranks(p, *b),
    ensures
        is_fastest(*b, pre.push(p), pred),
{
    let post = pre.push(p);
    let k = choose|k: int| 0 <= k < pre.len() && pre[k] == *b;
    assert(post[k] == *b);
    assert(post[pre.len() as int] == p);
    assert(post[k].key() != post[pre.len() as int].key());
    lemma_outranks(p, *b, p);
    assert forall|i: int| 0 <= i < post.len() && pred(#[trigger] post[i]) && post[i].name@ != b.name@ implies outranks(*b, post[i]) by {
        if i < pre.len() {
            assert(post[i] == pre[i]);
        }
    }
}

proof fn lemma_skip(
    pre: Seq<EntityPrototype>,
    p: EntityPrototype,
    best: Option<&EntityPrototype>,
    pred: spec_fn(EntityPrototype) -> bool,
)
    requires
        !pred(p),
        best matches Some(b) ==> is_fastest(*b, pre, pred),
        best is None ==> !some_proto(pre, pred),
    ensures
        best matches Some(b) ==> is_fastest(*b, pre.push(p), pred),
        best is None ==> !some_proto(pre.push(p), pred),
{
    let post = pre.push(p);
    if best is Some {
        let b = *best.unwrap();
        let k = choose|k: int| 0 <= k < pre.len() && pre[k] == b;
        assert(post[k] == b);
        assert forall|i: int| 0 <= i < post.len() && pred(#[trigger] post[i]) && post[i].name@ != b.name@ implies outranks(b, post[i]) by {
            if i < pre.len() {
                assert(post[i] == pre[i]);
            }
        }
    } else {
        assert forall|i: int| 0 <= i < post.len() implies !pred(#[trigger] post[i]) by {
            if i < pre.len() {
                assert(post[i] == pre[i]);
            }
        }
    }
}

/// `x` is one of the first `i` of `src`.
pub open spec fn in_prefix<T>(src: Seq<T>, i: int, x: T) -> bool {
    exists|j: int| 0 <= j < i && src[j] == x
}

} // verus!
