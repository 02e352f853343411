//! The integer side of sizing a step into cells: the refusals a step meets
//! before any rate arithmetic, the lane splits the allocation search ranges
//! over, and how a machine count divides into cells and columns.
use vstd::prelude::*;

use crate::layout::cell::CellTopology;
use crate::layout::error::LayoutError;
use crate::recipe::{ItemKind, Recipe, RecipeItem};
use crate::text::{name_eq, texts};

verus! {

/// The sum of `c`.
pub open spec fn seq_sum(c: Seq<u32>) -> int
    decreases c.len(),
{
    if c.len() == 0 {
        0
    } else {
        c[0] + seq_sum(c.drop_first())
    }
}

/// `c` splits `total` into `parts` strictly positive parts.
pub open spec fn is_composition(c: Seq<u32>, total: int, parts: int) -> bool {
    &&& c.len() == parts
    &&& forall|i: int| 0 <= i < c.len() ==> #[trigger] c[i] >= 1
    &&& seq_sum(c) == total
}

/// `a` comes after `b` in lexicographic order.
pub open spec fn lex_greater(a: Seq<u32>, b: Seq<u32>) -> bool {
    exists|k: int|
        0 <= k < a.len() && k < b.len() && #[trigger] a[k] > b[k] && forall|j: int| 0 <= j < k ==> a[j] == b[j]
}

proof fn lemma_sum_at_least_len(c: Seq<u32>)
    requires
        forall|i: int| 0 <= i < c.len() ==> #[trigger] c[i] >= 1,
    ensures
        seq_sum(c) >= c.len(),
    decreases c.len(),
{
    if c.len() > 0 {
        assert forall|i: int| 0 <= i < c.drop_first().len() implies #[trigger] c.drop_first()[i] >= 1 by {
            assert(c.drop_first()[i] == c[i + 1]);
        }
        lemma_sum_at_least_len(c.drop_first());
    }
}

/// Every composition of `total` into `parts` strictly positive integers,
/// in lexicographically decreasing order.
pub fn compositions(total: u32, parts: usize) -> (res: Vec<Vec<u32>>)
    requires
        parts == 0 || total as int >= parts,
    ensures
        forall|j: int| 0 <= j < res@.len() ==> is_composition(#[trigger] res@[j]@, total as int, parts as int),
        forall|a: int, b: int| 0 <= a < b < res@.len() ==> lex_greater(res@[a]@, res@[b]@),
        parts >= 1 ==> forall|c: Seq<u32>| #[trigger] is_composition(c, total as int, parts as int) ==> exists|j: int|
            0 <= j < res@.len() && res@[j]@ == c,
        parts == 0 ==> res@.len() == 0,
    decreases parts,
{
    if parts == 0 {
        return Vec::new();
    }
    if parts == 1 {
        let v: Vec<u32> = vec![total];
        let res: Vec<Vec<u32>> = vec![v];
        proof {
            assert(v@.drop_first() =~= Seq::<u32>::empty());
            assert(seq_sum(v@.drop_first()) == 0);
            assert(seq_sum(v@) == total);
            assert(res@[0]@ == v@);
            assert(is_composition(res@[0]@, total as int, parts as int));
            assert forall|c: Seq<u32>| #[trigger] is_composition(c, total as int, parts as int) implies exists|j: int|
                0 <= j < res@.len() && res@[j]@ == c by {
                assert(c.drop_first() =~= Seq::<u32>::empty());
                assert(seq_sum(c.drop_first()) == 0);
                assert(c[0] == total);
                assert(c =~= v@);
                assert(res@[0]@ == c);
            }
        }
        return res;
    }
    let mut out: Vec<Vec<u32>> = Vec::new();
    let start: u32 = total - (parts as u32 - 1);
    let mut first: u32 = start;
    proof {
        assert forall|c: Seq<u32>| #[trigger] is_composition(c, total as int, parts as int) implies c[0] <= start by {
            assert forall|i: int| 0 <= i < c.drop_first().len() implies #[trigger] c.drop_first()[i] >= 1 by {
                assert(c.drop_first()[i] == c[i + 1]);
            }
            lemma_sum_at_least_len(c.drop_first());
            assert(c[0] >= 1);
        }
    }
    loop
        invariant_except_break
            forall|j: int| 0 <= j < out@.len() ==> #[trigger] out@[j]@[0] > first,
            forall|c: Seq<u32>| #[trigger] is_composition(c, total as int, parts as int) && c[0] > first ==> exists|j: int|
                0 <= j < out@.len() && out@[j]@ == c,
        invariant
            parts >= 2,
            total as int >= parts,
            start == total - (parts - 1),
            1 <= first <= start,
            forall|j: int| 0 <= j < out@.len() ==> is_composition(#[trigger] out@[j]@, total as int, parts as int),
            forall|a: int, b: int| 0 <= a < b < out@.len() ==> lex_greater(out@[a]@, out@[b]@),
            forall|c: Seq<u32>| #[trigger] is_composition(c, total as int, parts as int) ==> c[0] <= start,
        ensures
            forall|j: int| 0 <= j < out@.len() ==> is_composition(#[trigger] out@[j]@, total as int, parts as int),
            forall|a: int, b: int| 0 <= a < b < out@.len() ==> lex_greater(out@[a]@, out@[b]@),
            forall|c: Seq<u32>| #[trigger] is_composition(c, total as int, parts as int) ==> exists|j: int|
                0 <= j < out@.len() && out@[j]@ == c,
        decreases first,
    {
        let rests = compositions(total - first, parts - 1);
        let ghost before = out@;
        let mut t: usize = 0;
        while t < rests.len()
            invariant
                parts >= 2,
                1 <= first,
                total as int >= first + parts - 1,
                t <= rests@.len(),
                out@.len() == before.len() + t,
                forall|j: int| 0 <= j < before.len() ==> #[trigger] out@[j] == before[j],
                forall|j: int| 0 <= j < rests@.len() ==> is_composition(#[trigger] rests@[j]@, total - first, parts - 1),
                forall|a: int, b: int| 0 <= a < b < rests@.len() ==> lex_greater(rests@[a]@, rests@[b]@),
                forall|k: int| 0 <= k < t ==> #[trigger] out@[before.len() + k]@ == seq![first] + rests@[k]@,
            decreases rests.len() - t,
        {
            let rest = &rests[t];
            let mut v: Vec<u32> = Vec::new();
            v.push(first);
            let mut u: usize = 0;
            while u < rest.len()
                invariant
                    u <= rest@.len(),
                    v@ == seq![first] + rest@.subrange(0, u as int),
                decreases rest.len() - u,
            {
                v.push(rest[u]);
                proof {
                    assert(v@ =~= seq![first] + rest@.subrange(0, u + 1));
                }
                u = u + 1;
            }
            proof {
                assert(rest@.subrange(0, u as int) =~= rest@);
            }
            out.push(v);
            t = t + 1;
        }
        proof {
            assert forall|k: int| 0 <= k < rests@.len() implies is_composition(#[trigger] (seq![first] + rests@[k]@), total as int, parts as int)
                && (seq![first] + rests@[k]@)[0] == first by {
                let c = seq![first] + rests@[k]@;
                assert(c.drop_first() =~= rests@[k]@);
                assert forall|i: int| 0 <= i < c.len() implies #[trigger] c[i] >= 1 by {
                    if i > 0 {
                        assert(c[i] == rests@[k]@[i - 1]);
                    }
                }
            }
            assert forall|j: int| 0 <= j < out@.len() implies is_composition(#[trigger] out@[j]@, total as int, parts as int)
                && out@[j]@[0] >= first by {
                if j >= before.len() {
                    assert(out@[before.len() + (j - before.len())]@ == seq![first] + rests@[j - before.len()]@);
                } else {
                    assert(out@[j] == before[j]);
                }
            }
            assert forall|a: int, b: int| 0 <= a < b < out@.len() implies lex_greater(out@[a]@, out@[b]@) by {
                if b >= before.len() {
                    let kb = b - before.len();
                    assert(out@[before.len() + kb]@ == seq![first] + rests@[kb]@);
                    if a < before.len() {
                        assert(out@[a]@[0] > first);
                        assert(out@[b]@[0] == first);
                        assert(out@[a]@.len() == parts && out@[b]@.len() == parts);
                        assert(out@[a]@[0] > out@[b]@[0]);
                    } else {
                        let ka = a - before.len();
                        assert(out@[before.len() + ka]@ == seq![first] + rests@[ka]@);
                        assert(lex_greater(rests@[ka]@, rests@[kb]@));
                        let k = choose|k: int|
                            0 <= k < rests@[ka]@.len() && k < rests@[kb]@.len() && #[trigger] rests@[ka]@[k] > rests@[kb]@[k]
                                && forall|j: int| 0 <= j < k ==> rests@[ka]@[j] == rests@[kb]@[j];
                        assert(out@[a]@[k + 1] == rests@[ka]@[k]);
                        assert(out@[b]@[k + 1] == rests@[kb]@[k]);
                        assert forall|j: int| 0 <= j < k + 1 implies out@[a]@[j] == out@[b]@[j] by {
                            if j > 0 {
                                assert(out@[a]@[j] == rests@[ka]@[j - 1]);
                                assert(out@[b]@[j] == rests@[kb]@[j - 1]);
                            }
                        }
                    }
                }
            }
            assert forall|c: Seq<u32>| #[trigger] is_composition(c, total as int, parts as int) && c[0] >= first implies exists|j: int|
                0 <= j < out@.len() && out@[j]@ == c by {
                if c[0] > first {
                    let j = choose|j: int| 0 <= j < before.len() && before[j]@ == c;
                    assert(out@[j] == before[j]);
                    assert(out@[j]@ == c);
                } else {
                    let r = c.drop_first();
                    assert forall|i: int| 0 <= i < r.len() implies #[trigger] r[i] >= 1 by {
                        assert(r[i] == c[i + 1]);
                    }
                    assert(is_composition(r, total - first, parts - 1));
                    let k = choose|k: int| 0 <= k < rests@.len() && rests@[k]@ == r;
                    assert(c =~= seq![first] + r);
                    assert(out@[before.len() + k]@ == c);
                }
            }
        }
        if first == 1 {
            break;
        }
        first = first - 1;
    }
    out
}

/// The names of the fluids among `items`.
pub open spec fn is_fluid_of(items: Seq<RecipeItem>, name: Seq<char>) -> bool {
    exists|k: int| 0 <= k < items.len() && #[trigger] items[k].name@ == name && items[k].kind == ItemKind::Fluid
}

/// The first stream of `streams` that `items` lists as a fluid.
pub open spec fn first_fluid(streams: Seq<String>, items: Seq<RecipeItem>, res: Option<int>) -> bool {
    match res {
        Some(i) => 0 <= i < streams.len() && is_fluid_of(items, streams[i]@) && forall|j: int|
            0 <= j < i ==> !is_fluid_of(items, #[trigger] streams[j]@),
        None => forall|j: int| 0 <= j < streams.len() ==> !is_fluid_of(items, #[trigger] streams[j]@),
    }
}

pub(crate) fn find_fluid(streams: &Vec<String>, items: &Vec<RecipeItem>) -> (res: Option<usize>)
    ensures
        first_fluid(streams@, items@, match res {
            Some(i) => Some(i as int),
            None => None,
        }),
{
    let mut i: usize = 0;
    while i < streams.len()
        invariant
            i <= streams@.len(),
            forall|j: int| 0 <= j < i ==> !is_fluid_of(items@, #[trigger] streams@[j]@),
        decreases streams.len() - i,
    {
        let mut k: usize = 0;
        while k < items.len()
            invariant
                i < streams@.len(),
                forall|j: int| 0 <= j < i ==> !is_fluid_of(items@, #[trigger] streams@[j]@),
                k <= items@.len(),
                forall|m: int| 0 <= m < k ==> !(#[trigger] items@[m].name@ == streams@[i as int]@ && items@[m].kind == ItemKind::Fluid),
            decreases items.len() - k,
        {
            if items[k].kind == ItemKind::Fluid && name_eq(items[k].name.as_str(), streams[i].as_str()) {
                proof {
                    assert(items@[k as int].name@ == streams@[i as int]@);
                    assert(is_fluid_of(items@, streams@[i as int]@));
                }
                return Some(i);
            }
            k = k + 1;
        }
        i = i + 1;
    }
    None
}

/// The refusals a step meets before any arithmetic on its rates, in this
/// order: a belt count outside 1..=2; a fluid among the carried ingredients
/// or products (ingredients first), which cannot ride a belt; more than one
/// product, since a column owns its product lanes outright; more
/// ingredients than the cell has lanes. `inputs` and `outputs` name the
/// streams with a positive rate, in the step's own order.
pub fn check_streams(
    recipe: &Recipe,
    inputs: &Vec<String>,
    outputs: &Vec<String>,
    topo: &CellTopology,
) -> (res: Result<(), LayoutError>)
    ensures
        !topo.spec_valid() ==> (res matches Err(e) && topo.topology_refusal(e)),
        topo.spec_valid() ==> ({
            let in_fluid = exists|i: int| 0 <= i < inputs@.len() && is_fluid_of(recipe.ingredients@, #[trigger] inputs@[i]@);
            let out_fluid = exists|i: int| 0 <= i < outputs@.len() && is_fluid_of(recipe.results@, #[trigger] outputs@[i]@);
            let lanes = 2 * topo.spec_ingredient_belts();
            if in_fluid {
                res matches Err(LayoutError::FluidOnBelt { recipe: r, item }) && r@ == recipe.name@ && exists|i: int|
                    first_fluid(inputs@, recipe.ingredients@, Some(i)) && item@ == inputs@[i]@
            } else if out_fluid {
                res matches Err(LayoutError::FluidOnBelt { recipe: r, item }) && r@ == recipe.name@ && exists|i: int|
                    first_fluid(outputs@, recipe.results@, Some(i)) && item@ == outputs@[i]@
            } else if outputs@.len() > 1 {
                res matches Err(LayoutError::MultipleProducts { recipe: r, products }) && r@ == recipe.name@
                    && texts(products@) == texts(outputs@)
            } else if inputs@.len() > lanes {
                res matches Err(LayoutError::TooManyIngredientsForLanes { recipe: r, ingredients, lanes: l })
                    && r@ == recipe.name@ && texts(ingredients@) == texts(inputs@) && l == lanes
            } else {
                res is Ok
            }
        }),
{
    topo.validate()?;
    match find_fluid(inputs, &recipe.ingredients) {
        Some(i) => {
            return Err(LayoutError::FluidOnBelt { recipe: recipe.name.clone(), item: inputs[i].clone() });
        },
        None => {},
    }
    match find_fluid(outputs, &recipe.results) {
        Some(i) => {
            return Err(LayoutError::FluidOnBelt { recipe: recipe.name.clone(), item: outputs[i].clone() });
        },
        None => {},
    }
    if outputs.len() > 1 {
        return Err(LayoutError::MultipleProducts { recipe: recipe.name.clone(), products: clone_names(outputs) });
    }
    let lanes = topo.ingredient_lanes();
    if inputs.len() > lanes as usize {
        return Err(LayoutError::TooManyIngredientsForLanes {
            recipe: recipe.name.clone(),
            ingredients: clone_names(inputs),
            lanes,
        });
    }
    Ok(())
}

fn clone_names(names: &Vec<String>) -> (res: Vec<String>)
    ensures
        texts(res@) == texts(names@),
{
    let mut out: Vec<String> = Vec::new();
    let mut i: usize = 0;
    while i < names.len()
        invariant
            i <= names@.len(),
            texts(out@) == texts(names@.subrange(0, i as int)),
        decreases names.len() - i,
    {
        let ghost before = out@;
        let s = names[i].clone();
        proof {
            assert(s@ == names@[i as int]@);
        }
        out.push(s);
        proof {
            assert(texts(out@) =~= texts(before).push(s@));
            assert(texts(names@.subrange(0, i + 1)) =~= texts(names@.subrange(0, i as int)).push(names@[i as int]@));
        }
        i = i + 1;
    }
    proof {
        assert(names@.subrange(0, i as int) =~= names@);
    }
    out
}

/// How `machines` machines divide into cells of `machines_per_cell`: the
/// number of cells (the last one possibly partly filled), and a full cell's
/// two column counts, the extra machine to the first column.
pub fn split_into_cells(machines: u32, machines_per_cell: u32) -> (res: (u32, (u32, u32)))
    requires
        machines_per_cell >= 1,
    ensures
        res.0 as int == (machines + machines_per_cell - 1) / machines_per_cell as int,
        res.1.0 == (machines_per_cell + 1) / 2,
        res.1.1 == machines_per_cell / 2,
        res.1.0 + res.1.1 == machines_per_cell,
{
    proof {
        if machines % machines_per_cell != 0 {
            assert(machines_per_cell >= 2);
            assert(machines / machines_per_cell <= machines / 2) by (nonlinear_arith)
                requires
                    machines_per_cell >= 2,
            ;
        }
    }
    let cells = machines / machines_per_cell + if machines % machines_per_cell == 0 { 0 } else { 1 };
    proof {
        let m = machines as int;
        let p = machines_per_cell as int;
        assert((m + p - 1) / p == m / p + if m % p == 0 { 0int } else { 1int }) by (nonlinear_arith)
            requires
                p >= 1,
                m >= 0,
        ;
    }
    (cells, (machines_per_cell / 2 + machines_per_cell % 2, machines_per_cell / 2))
}

} // verus!
