//! The build order of a plan's steps: producers before consumers, ties broken
//! by recipe name so that the order is stable.
use vstd::prelude::*;
use vstd::set_lib::{lemma_int_range, lemma_len_subset, set_int_range};

use crate::recipe::{lists_item, Recipe};
use crate::text::{chars_le, chars_lt, lemma_le_transitive, lemma_lt_total, lemma_lt_transitive, name_lt};

verus! {

/// The name of step `i`.
pub open spec fn name_of(steps: Seq<&Recipe>, i: int) -> Seq<char> {
    steps[i].name@
}

/// Step `p` makes something that a different step `c` consumes.
pub open spec fn feeds(steps: Seq<&Recipe>, p: int, c: int) -> bool {
    &&& 0 <= p < steps.len()
    &&& 0 <= c < steps.len()
    &&& p != c
    &&& exists|a: int, b: int|
        #![trigger steps[p].results@[a], steps[c].ingredients@[b]]
        0 <= a < steps[p].results@.len() && 0 <= b < steps[c].ingredients@.len()
            && steps[p].results@[a].name@ == steps[c].ingredients@[b].name@
}

/// `q` is among the first `k` entries of `order`.
pub open spec fn placed_before(order: Seq<usize>, k: int, q: int) -> bool {
    exists|j: int| 0 <= j < k && j < order.len() && #[trigger] order[j] as int == q
}

/// `x` could be built right after the first `k` entries of `order`: it is
/// not among them, and every step that feeds it is.
pub open spec fn ready_at(steps: Seq<&Recipe>, order: Seq<usize>, k: int, x: int) -> bool {
    &&& 0 <= x < steps.len()
    &&& !placed_before(order, k, x)
    &&& forall|q: int| #[trigger] feeds(steps, q, x) ==> placed_before(order, k, q)
}

/// Entry `k` of `order` was ready at its turn, and no ready step has a
/// smaller name.
pub open spec fn picks_least(steps: Seq<&Recipe>, order: Seq<usize>, k: int) -> bool {
    &&& ready_at(steps, order, k, order[k] as int)
    &&& forall|x: int| #[trigger] ready_at(steps, order, k, x) ==> chars_le(name_of(steps, order[k] as int), name_of(steps, x))
}

/// Some step that feeds `x` is not among the first `m` entries of `order`.
pub open spec fn blocked(steps: Seq<&Recipe>, order: Seq<usize>, m: int, x: int) -> bool {
    exists|q: int| #[trigger] feeds(steps, q, x) && !placed_before(order, m, q)
}

/// Step `x` comes before step `y` by name, then by position.
pub open spec fn before_by_name(steps: Seq<&Recipe>, x: int, y: int) -> bool {
    chars_lt(name_of(steps, x), name_of(steps, y)) || (name_of(steps, x) == name_of(steps, y) && x < y)
}

/// `order` lists each step exactly once.
pub open spec fn is_permutation(order: Seq<usize>, n: int) -> bool {
    &&& order.len() == n
    &&& forall|j: int| 0 <= j < order.len() ==> #[trigger] order[j] < n
    &&& forall|a: int, b: int| 0 <= a < b < order.len() ==> order[a] != order[b]
}

/// The order has two phases. Up to `m`, each step is placed once every step
/// feeding it is placed, the least name first among those that could go
/// next. At `m` every remaining step waits on another remaining step (they
/// lie on or behind a cycle), and the rest follow by name.
pub open spec fn phases(steps: Seq<&Recipe>, order: Seq<usize>, m: int) -> bool {
    &&& 0 <= m <= order.len()
    &&& forall|k: int| 0 <= k < m ==> #[trigger] picks_least(steps, order, k)
    &&& forall|x: int| 0 <= x < steps.len() && !placed_before(order, m, x) ==> #[trigger] blocked(steps, order, m, x)
    &&& forall|a: int, b: int| m <= a < b < order.len() ==> before_by_name(steps, order[a] as int, order[b] as int)
}

/// `order` is the build order of `steps`.
pub open spec fn is_build_order(steps: Seq<&Recipe>, order: Seq<usize>) -> bool {
    &&& is_permutation(order, steps.len() as int)
    &&& exists|m: int| phases(steps, order, m)
}

/// Number of steps before `k` that feed `c` and are not placed in `order`.
pub open spec fn count_feeders(steps: Seq<&Recipe>, order: Seq<usize>, c: int, k: int) -> nat
    decreases k,
{
    if k <= 0 {
        0
    } else {
        count_feeders(steps, order, c, k - 1) + if feeds(steps, k - 1, c) && !placed_before(
            order,
            order.len() as int,
            k - 1,
        ) {
            1nat
        } else {
            0nat
        }
    }
}

proof fn lemma_count_bound(steps: Seq<&Recipe>, order: Seq<usize>, c: int, k: int)
    requires
        k >= 0,
    ensures
        count_feeders(steps, order, c, k) <= k,
    decreases k,
{
    if k > 0 {
        lemma_count_bound(steps, order, c, k - 1);
    }
}

proof fn lemma_count_zero(steps: Seq<&Recipe>, order: Seq<usize>, c: int, k: int)
    requires
        k >= 0,
    ensures
        count_feeders(steps, order, c, k) == 0 <==> forall|q: int|
            0 <= q < k && #[trigger] feeds(steps, q, c) ==> placed_before(order, order.len() as int, q),
    decreases k,
{
    if k > 0 {
        lemma_count_zero(steps, order, c, k - 1);
    }
}

proof fn lemma_placed_push(order: Seq<usize>, i: usize, q: int)
    ensures
        placed_before(order.push(i), order.len() + 1int, q) <==> (placed_before(order, order.len() as int, q)
            || q == i as int),
        forall|k: int| 0 <= k <= order.len() ==> #[trigger] placed_before(order.push(i), k, q) == placed_before(order, k, q),
{
    let o2 = order.push(i);
    if placed_before(o2, order.len() + 1int, q) {
        let j = choose|j: int| 0 <= j < order.len() + 1 && j < o2.len() && #[trigger] o2[j] as int == q;
        if j < order.len() {
            assert(order[j] as int == q);
        }
    }
    if placed_before(order, order.len() as int, q) {
        let j = choose|j: int| 0 <= j < order.len() && j < order.len() && #[trigger] order[j] as int == q;
        assert(o2[j] as int == q);
    }
    if q == i as int {
        assert(o2[order.len() as int] as int == q);
    }
    assert forall|k: int| 0 <= k <= order.len() implies #[trigger] placed_before(o2, k, q) == placed_before(order, k, q) by {
        if placed_before(o2, k, q) {
            let j = choose|j: int| 0 <= j < k && j < o2.len() && #[trigger] o2[j] as int == q;
            assert(order[j] as int == q);
        }
        if placed_before(order, k, q) {
            let j = choose|j: int| 0 <= j < k && j < order.len() && #[trigger] order[j] as int == q;
            assert(o2[j] as int == q);
        }
    }
}

proof fn lemma_count_place(steps: Seq<&Recipe>, order: Seq<usize>, i: usize, c: int, k: int)
    requires
        k >= 0,
        !placed_before(order, order.len() as int, i as int),
    ensures
        count_feeders(steps, order, c, k) == count_feeders(steps, order.push(i), c, k) + if 0 <= i < k
            && feeds(steps, i as int, c) {
            1int
        } else {
            0int
        },
    decreases k,
{
    if k > 0 {
        lemma_count_place(steps, order, i, c, k - 1);
        lemma_placed_push(order, i, k - 1);
    }
}

proof fn lemma_distinct_bounded(s: Seq<usize>, n: int)
    requires
        n >= 0,
        forall|j: int| 0 <= j < s.len() ==> #[trigger] s[j] < n,
        forall|a: int, b: int| 0 <= a < b < s.len() ==> s[a] != s[b],
    ensures
        s.len() <= n,
{
    let t = s.map_values(|x: usize| x as int);
    assert(t.no_duplicates()) by {
        assert forall|a: int, b: int| 0 <= a < t.len() && 0 <= b < t.len() && a != b implies t[a] != t[b] by {
            if a < b {
                assert(s[a] != s[b]);
            } else {
                assert(s[b] != s[a]);
            }
        }
    }
    t.unique_seq_to_set();
    lemma_int_range(0, n);
    assert forall|x: int| t.to_set().contains(x) implies set_int_range(0, n).contains(x) by {
        let j = choose|j: int| 0 <= j < t.len() && t[j] == x;
        assert(s[j] < n);
    }
    lemma_len_subset(t.to_set(), set_int_range(0, n));
}

/// Whether `p` makes something `c` consumes.
fn makes_for(p: &Recipe, c: &Recipe) -> (res: bool)
    ensures
        res == exists|a: int, b: int|
            #![trigger p.results@[a], c.ingredients@[b]]
            0 <= a < p.results@.len() && 0 <= b < c.ingredients@.len() && p.results@[a].name@
                == c.ingredients@[b].name@,
{
    let mut a: usize = 0;
    while a < p.results.len()
        invariant
            a <= p.results@.len(),
            forall|x: int, b: int|
                #![trigger p.results@[x], c.ingredients@[b]]
                0 <= x < a && 0 <= b < c.ingredients@.len() ==> p.results@[x].name@ != c.ingredients@[b].name@,
        decreases p.results.len() - a,
    {
        if lists_item(&c.ingredients, p.results[a].name.as_str()) {
            proof {
                let b = choose|b: int| 0 <= b < c.ingredients@.len() && #[trigger] c.ingredients@[b].name@ == p.results@[a as int].name@;
                assert(p.results@[a as int].name@ == c.ingredients@[b].name@);
            }
            return true;
        }
        proof {
            assert forall|x: int, b: int|
                #![trigger p.results@[x], c.ingredients@[b]]
                0 <= x < a + 1 && 0 <= b < c.ingredients@.len() implies p.results@[x].name@ != c.ingredients@[b].name@ by {
                if x == a {
                    assert(c.ingredients@[b].name@ != p.results@[a as int].name@);
                }
            }
        }
        a = a + 1;
    }
    false
}

/// `row` lists, in increasing order, exactly the steps that step `q` feeds.
pub open spec fn lists_consumers(steps: Seq<&Recipe>, row: Seq<usize>, q: int) -> bool {
    &&& forall|j: int| 0 <= j < row.len() ==> feeds(steps, q, #[trigger] row[j] as int)
    &&& forall|a: int, b: int| 0 <= a < b < row.len() ==> row[a] < row[b]
    &&& forall|x: int| #[trigger] feeds(steps, q, x) ==> row.contains(x as usize)
}

/// For each step, the steps it feeds; and for each step, how many steps feed it.
fn feed_graph(steps: &Vec<&Recipe>) -> (res: (Vec<Vec<usize>>, Vec<usize>))
    ensures
        res.0@.len() == steps@.len(),
        res.1@.len() == steps@.len(),
        forall|q: int| 0 <= q < steps@.len() ==> lists_consumers(steps@, #[trigger] res.0@[q]@, q),
        forall|x: int| 0 <= x < steps@.len() ==> #[trigger] res.1@[x] == count_feeders(steps@, Seq::empty(), x, steps@.len() as int),
{
    let n = steps.len();
    let mut in_degree: Vec<usize> = Vec::new();
    let mut c: usize = 0;
    while c < n
        invariant
            c <= n,
            in_degree@.len() == c,
            forall|x: int| 0 <= x < c ==> #[trigger] in_degree@[x] == 0,
        decreases n - c,
    {
        in_degree.push(0);
        c = c + 1;
    }
    let mut adjacency: Vec<Vec<usize>> = Vec::new();
    let mut p: usize = 0;
    while p < n
        invariant
            n == steps@.len(),
            p <= n,
            adjacency@.len() == p,
            in_degree@.len() == n,
            forall|q: int| 0 <= q < p ==> lists_consumers(steps@, #[trigger] adjacency@[q]@, q),
            forall|x: int| 0 <= x < n ==> #[trigger] in_degree@[x] == count_feeders(steps@, Seq::<usize>::empty(), x, p as int),
        decreases n - p,
    {
        let mut row: Vec<usize> = Vec::new();
        let mut c: usize = 0;
        while c < n
            invariant
                n == steps@.len(),
                p < n,
                c <= n,
                in_degree@.len() == n,
                forall|j: int| 0 <= j < row@.len() ==> #[trigger] row@[j] < c && feeds(steps@, p as int, row@[j] as int),
                forall|a: int, b: int| 0 <= a < b < row@.len() ==> row@[a] < row@[b],
                forall|x: int| 0 <= x < c && #[trigger] feeds(steps@, p as int, x) ==> row@.contains(x as usize),
                forall|x: int| 0 <= x < n ==> #[trigger] in_degree@[x] == count_feeders(steps@, Seq::<usize>::empty(), x, p as int) + if x < c
                    && feeds(steps@, p as int, x) {
                    1int
                } else {
                    0int
                },
            decreases n - c,
        {
            if c != p && makes_for(steps[p], steps[c]) {
                proof {
                    lemma_count_bound(steps@, Seq::<usize>::empty(), c as int, p as int);
                    assert(feeds(steps@, p as int, c as int));
                }
                let ghost old_row = row@;
                row.push(c);
                proof {
                    assert forall|x: int| 0 <= x < c + 1 && #[trigger] feeds(steps@, p as int, x) implies row@.contains(x as usize) by {
                        if x < c {
                            let j = choose|j: int| 0 <= j < old_row.len() && old_row[j] == x as usize;
                            assert(row@[j] == x as usize);
                        } else {
                            assert(row@[old_row.len() as int] == x as usize);
                        }
                    }
                }
                let d = in_degree[c] + 1;
                in_degree.set(c, d);
            } else {
                proof {
                    assert(!feeds(steps@, p as int, c as int));
                }
            }
            c = c + 1;
        }
        proof {
            assert forall|x: int| 0 <= x < n implies #[trigger] in_degree@[x] == count_feeders(steps@, Seq::<usize>::empty(), x, p + 1) by {
                assert(!placed_before(Seq::<usize>::empty(), 0int, p as int));
                assert(count_feeders(steps@, Seq::<usize>::empty(), x, p + 1) == count_feeders(steps@, Seq::<usize>::empty(), x, p as int) + if feeds(steps@, p as int, x) {
                    1nat
                } else {
                    0nat
                });
            }
        }
        adjacency.push(row);
        p = p + 1;
    }
    (adjacency, in_degree)
}

/// The position of the first step of `ready` with the least name.
fn least_named(steps: &Vec<&Recipe>, ready: &Vec<usize>) -> (res: usize)
    requires
        ready@.len() > 0,
        forall|j: int| 0 <= j < ready@.len() ==> #[trigger] ready@[j] < steps@.len(),
    ensures
        res < ready@.len(),
        forall|j: int| 0 <= j < ready@.len() ==> chars_le(
            name_of(steps@, ready@[res as int] as int),
            name_of(steps@, #[trigger] ready@[j] as int),
        ),
{
    let mut best: usize = 0;
    let mut j: usize = 1;
    while j < ready.len()
        invariant
            0 < j <= ready@.len(),
            best < j,
            forall|j: int| 0 <= j < ready@.len() ==> #[trigger] ready@[j] < steps@.len(),
            forall|t: int| 0 <= t < j ==> chars_le(
                name_of(steps@, ready@[best as int] as int),
                name_of(steps@, #[trigger] ready@[t] as int),
            ),
        decreases ready.len() - j,
    {
        let cand = steps[ready[j]].name.as_str();
        let cur = steps[ready[best]].name.as_str();
        if name_lt(cand, cur) {
            proof {
                assert forall|t: int| 0 <= t < j + 1 implies chars_le(
                    name_of(steps@, ready@[j as int] as int),
                    name_of(steps@, #[trigger] ready@[t] as int),
                ) by {
                    if t < j {
                        lemma_le_transitive(cand@, cur@, name_of(steps@, ready@[t] as int));
                        if chars_lt(cur@, name_of(steps@, ready@[t] as int)) {
                            lemma_lt_transitive(cand@, cur@, name_of(steps@, ready@[t] as int));
                        }
                    }
                }
            }
            best = j;
        } else {
            proof {
                lemma_lt_total(cand@, cur@);
            }
        }
        j = j + 1;
    }
    best
}


proof fn lemma_placed_push_all(order: Seq<usize>, i: usize)
    ensures
        forall|q: int| #[trigger] placed_before(order.push(i), order.len() + 1int, q) <==> (placed_before(order, order.len() as int, q) || q == i as int),
        forall|k: int, q: int| 0 <= k <= order.len() ==> #[trigger] placed_before(order.push(i), k, q) == placed_before(order, k, q),
{
    assert forall|q: int| #[trigger] placed_before(order.push(i), order.len() + 1int, q) <==> (placed_before(order, order.len() as int, q) || q == i as int) by {
        lemma_placed_push(order, i, q);
    }
    assert forall|k: int, q: int| 0 <= k <= order.len() implies #[trigger] placed_before(order.push(i), k, q) == placed_before(order, k, q) by {
        lemma_placed_push(order, i, q);
    }
}

/// Some entry of `row` from position `t` on is `c`.
pub open spec fn pending(row: Seq<usize>, t: int, c: int) -> bool {
    exists|u: int| t <= u < row.len() && #[trigger] row[u] as int == c
}

/// The dependency phase of the order: Kahn's algorithm over the feed
/// relation, taking the least name among the ready steps each time.
fn place_by_dependency(
    steps: &Vec<&Recipe>,
    adjacency: &Vec<Vec<usize>>,
    in_degree: Vec<usize>,
) -> (res: (Vec<usize>, Vec<bool>))
    requires
        adjacency@.len() == steps@.len(),
        in_degree@.len() == steps@.len(),
        forall|q: int| 0 <= q < steps@.len() ==> lists_consumers(steps@, #[trigger] adjacency@[q]@, q),
        forall|x: int| 0 <= x < steps@.len() ==> #[trigger] in_degree@[x] == count_feeders(steps@, Seq::<usize>::empty(), x, steps@.len() as int),
    ensures
        res.0@.len() <= steps@.len(),
        forall|j: int| 0 <= j < res.0@.len() ==> #[trigger] res.0@[j] < steps@.len(),
        forall|a: int, b: int| 0 <= a < b < res.0@.len() ==> res.0@[a] != res.0@[b],
        forall|k: int| 0 <= k < res.0@.len() ==> #[trigger] picks_least(steps@, res.0@, k),
        forall|x: int| 0 <= x < steps@.len() && !placed_before(res.0@, res.0@.len() as int, x) ==> #[trigger] blocked(steps@, res.0@, res.0@.len() as int, x),
        res.1@.len() == steps@.len(),
        forall|x: int| 0 <= x < steps@.len() ==> #[trigger] res.1@[x] == placed_before(res.0@, res.0@.len() as int, x),
{
    let n = steps.len();
    let mut in_degree = in_degree;
    let mut order: Vec<usize> = Vec::new();
    let mut is_placed: Vec<bool> = Vec::new();
    let mut ready: Vec<usize> = Vec::new();
    let mut x: usize = 0;
    while x < n
        invariant
            n == steps@.len(),
            x <= n,
            in_degree@.len() == n,
            is_placed@.len() == x,
            forall|y: int| 0 <= y < x ==> !#[trigger] is_placed@[y],
            forall|j: int| 0 <= j < ready@.len() ==> #[trigger] ready@[j] < x && in_degree@[ready@[j] as int] == 0,
            forall|a: int, b: int| 0 <= a < b < ready@.len() ==> ready@[a] < ready@[b],
            forall|y: int| 0 <= y < x && #[trigger] in_degree@[y] == 0 ==> ready@.contains(y as usize),
        decreases n - x,
    {
        is_placed.push(false);
        if in_degree[x] == 0 {
            let ghost old_ready = ready@;
            ready.push(x);
            proof {
                assert forall|y: int| 0 <= y < x + 1 && #[trigger] in_degree@[y] == 0 implies ready@.contains(y as usize) by {
                    if y < x {
                        let j = choose|j: int| 0 <= j < old_ready.len() && old_ready[j] == y as usize;
                        assert(ready@[j] == y as usize);
                    } else {
                        assert(ready@[old_ready.len() as int] == y as usize);
                    }
                }
            }
        }
        x = x + 1;
    }
    proof {
        assert forall|y: int| 0 <= y < n implies #[trigger] is_placed@[y] == placed_before(order@, order@.len() as int, y) by {}
    }
    while ready.len() > 0
        invariant
            n == steps@.len(),
            adjacency@.len() == n,
            in_degree@.len() == n,
            is_placed@.len() == n,
            forall|q: int| 0 <= q < n ==> lists_consumers(steps@, #[trigger] adjacency@[q]@, q),
            order@.len() <= n,
            forall|j: int| 0 <= j < order@.len() ==> #[trigger] order@[j] < n,
            forall|a: int, b: int| 0 <= a < b < order@.len() ==> order@[a] != order@[b],
            forall|y: int| 0 <= y < n ==> #[trigger] is_placed@[y] == placed_before(order@, order@.len() as int, y),
            forall|y: int| 0 <= y < n && !placed_before(order@, order@.len() as int, y) ==> #[trigger] in_degree@[y]
                == count_feeders(steps@, order@, y, n as int),
            forall|j: int| 0 <= j < ready@.len() ==> #[trigger] ready@[j] < n && !placed_before(order@, order@.len() as int, ready@[j] as int)
                && in_degree@[ready@[j] as int] == 0,
            forall|a: int, b: int| 0 <= a < b < ready@.len() ==> ready@[a] != ready@[b],
            forall|y: int| 0 <= y < n && !placed_before(order@, order@.len() as int, y) && #[trigger] in_degree@[y] == 0
                ==> ready@.contains(y as usize),
            forall|k: int| 0 <= k < order@.len() ==> #[trigger] picks_least(steps@, order@, k),
        decreases n - order@.len(),
    {
        let pick = least_named(steps, &ready);
        let ghost old_ready = ready@;
        let ghost old_order = order@;
        let ghost len = old_order.len() as int;
        let i = ready.swap_remove(pick);
        order.push(i);
        is_placed.set(i, true);
        proof {
            lemma_placed_push_all(old_order, i);
            // `i` was ready: every step feeding it is already placed.
            lemma_count_zero(steps@, old_order, i as int, n as int);
            assert forall|q: int| #[trigger] feeds(steps@, q, i as int) implies placed_before(order@, len, q) by {
                assert(placed_before(old_order, len, q));
            }
            assert(ready_at(steps@, order@, len, i as int));
            assert forall|y: int| #[trigger] ready_at(steps@, order@, len, y) implies chars_le(
                name_of(steps@, order@[len] as int),
                name_of(steps@, y),
            ) by {
                assert(!placed_before(old_order, len, y));
                assert forall|q: int| 0 <= q < n && #[trigger] feeds(steps@, q, y) implies placed_before(old_order, len, q) by {
                    assert(placed_before(order@, len, q));
                }
                lemma_count_zero(steps@, old_order, y, n as int);
                assert(in_degree@[y] == 0);
                assert(old_ready.contains(y as usize));
                let j = choose|j: int| 0 <= j < old_ready.len() && old_ready[j] == y as usize;
                assert(chars_le(name_of(steps@, old_ready[pick as int] as int), name_of(steps@, old_ready[j] as int)));
            }
            assert(picks_least(steps@, order@, len));
            assert forall|k: int| 0 <= k < order@.len() implies #[trigger] picks_least(steps@, order@, k) by {
                if k < len {
                    assert(picks_least(steps@, old_order, k));
                    assert(order@[k] == old_order[k]);
                    assert forall|y: int| #[trigger] ready_at(steps@, order@, k, y) implies chars_le(
                        name_of(steps@, order@[k] as int),
                        name_of(steps@, y),
                    ) by {
                        assert forall|q: int| #[trigger] feeds(steps@, q, y) implies placed_before(old_order, k, q) by {
                            assert(placed_before(order@, k, q));
                        }
                        assert(!placed_before(old_order, k, y));
                        assert(ready_at(steps@, old_order, k, y));
                    }
                    let z = order@[k] as int;
                    assert forall|q: int| #[trigger] feeds(steps@, q, z) implies placed_before(order@, k, q) by {
                        assert(placed_before(old_order, k, q));
                    }
                    assert(!placed_before(order@, k, z));
                    assert(ready_at(steps@, order@, k, z));
                }
            }
            assert forall|a: int, b: int| 0 <= a < b < order@.len() implies order@[a] != order@[b] by {
                if b == len {
                    assert(old_order[a] as int == old_order[a] as int);
                    assert(placed_before(old_order, len, old_order[a] as int));
                }
            }
            lemma_distinct_bounded(order@, n as int);
            // The rest of `ready` is unchanged.
            assert forall|j: int| 0 <= j < ready@.len() implies old_ready.contains(#[trigger] ready@[j]) && ready@[j] != i by {
                if j == pick {
                    assert(ready@[j] == old_ready[old_ready.len() - 1]);
                    assert(old_ready.len() - 1 != pick);
                } else {
                    assert(ready@[j] == old_ready[j]);
                }
            }
            assert forall|a: int, b: int| 0 <= a < b < ready@.len() implies ready@[a] != ready@[b] by {
                let ia = if a == pick { old_ready.len() - 1 } else { a };
                let ib = if b == pick { old_ready.len() - 1 } else { b };
                assert(ready@[a] == old_ready[ia]);
                assert(ready@[b] == old_ready[ib]);
            }
            assert forall|y: int| 0 <= y < n && !placed_before(order@, order@.len() as int, y) && #[trigger] in_degree@[y] == 0
                implies ready@.contains(y as usize) by {
                assert(old_ready.contains(y as usize));
                let j = choose|j: int| 0 <= j < old_ready.len() && old_ready[j] == y as usize;
                if j == old_ready.len() - 1 {
                    assert(ready@[pick as int] == y as usize);
                } else {
                    assert(ready@[j] == y as usize);
                }
            }
            // Removing `i` from the unplaced steps drops one feeder from each of its consumers.
            assert forall|y: int| 0 <= y < n && !placed_before(order@, order@.len() as int, y) implies #[trigger] in_degree@[y]
                == count_feeders(steps@, order@, y, n as int) + if pending(adjacency@[i as int]@, 0, y) { 1int } else { 0int } by {
                lemma_count_place(steps@, old_order, i, y, n as int);
                let row = adjacency@[i as int]@;
                if feeds(steps@, i as int, y) {
                    let u = choose|u: int| 0 <= u < row.len() && row[u] == y as usize;
                    assert(row[u] as int == y);
                }
                if pending(row, 0, y) {
                    let u = choose|u: int| 0 <= u < row.len() && #[trigger] row[u] as int == y;
                    assert(feeds(steps@, i as int, row[u] as int));
                }
            }
        }
        let row = &adjacency[i];
        let mut t: usize = 0;
        while t < row.len()
            invariant
                n == steps@.len(),
                adjacency@.len() == n,
                in_degree@.len() == n,
                is_placed@.len() == n,
                forall|q: int| 0 <= q < n ==> lists_consumers(steps@, #[trigger] adjacency@[q]@, q),
                row@ == adjacency@[i as int]@,
                i < n,
                t <= row@.len(),
                order@.len() <= n,
                forall|j: int| 0 <= j < order@.len() ==> #[trigger] order@[j] < n,
                forall|a: int, b: int| 0 <= a < b < order@.len() ==> order@[a] != order@[b],
                forall|y: int| 0 <= y < n ==> #[trigger] is_placed@[y] == placed_before(order@, order@.len() as int, y),
                forall|y: int| 0 <= y < n && !placed_before(order@, order@.len() as int, y) ==> #[trigger] in_degree@[y]
                    == count_feeders(steps@, order@, y, n as int) + if pending(row@, t as int, y) { 1int } else { 0int },
                forall|j: int| 0 <= j < ready@.len() ==> #[trigger] ready@[j] < n && !placed_before(order@, order@.len() as int, ready@[j] as int)
                    && in_degree@[ready@[j] as int] == 0,
                forall|a: int, b: int| 0 <= a < b < ready@.len() ==> ready@[a] != ready@[b],
                forall|y: int| 0 <= y < n && !placed_before(order@, order@.len() as int, y) && #[trigger] in_degree@[y] == 0
                    ==> ready@.contains(y as usize),
                forall|k: int| 0 <= k < order@.len() ==> #[trigger] picks_least(steps@, order@, k),
                order@.len() > 0,
                order@[order@.len() - 1] == i,
            decreases row.len() - t,
        {
            let next = row[t];
            proof {
                assert(feeds(steps@, i as int, next as int));
                // A step that `i` feeds cannot already be placed: it would have
                // waited for `i`, which is the last step placed.
                if placed_before(order@, order@.len() as int, next as int) {
                    let k = choose|k: int| 0 <= k < order@.len() && k < order@.len() && #[trigger] order@[k] as int == next as int;
                    assert(picks_least(steps@, order@, k));
                    assert(placed_before(order@, k, i as int));
                    let k2 = choose|k2: int| 0 <= k2 < k && k2 < order@.len() && #[trigger] order@[k2] as int == i as int;
                    let last = order@.len() - 1;
                    if k2 != last {
                        assert(order@[k2] != order@[last]);
                    }
                    assert(false);
                }
                assert(pending(row@, t as int, next as int));
                lemma_count_bound(steps@, order@, next as int, n as int);
            }
            let d = in_degree[next] - 1;
            in_degree.set(next, d);
            if d == 0 {
                let ghost old_ready = ready@;
                ready.push(next);
                proof {
                    assert forall|a: int, b: int| 0 <= a < b < ready@.len() implies ready@[a] != ready@[b] by {
                        if b == old_ready.len() {
                            assert(in_degree@[old_ready[a] as int] == 0);
                        }
                    }
                    assert forall|y: int| 0 <= y < n && !placed_before(order@, order@.len() as int, y) && #[trigger] in_degree@[y] == 0
                        implies ready@.contains(y as usize) by {
                        if y == next as int {
                            assert(ready@[old_ready.len() as int] == y as usize);
                        } else {
                            let j = choose|j: int| 0 <= j < old_ready.len() && old_ready[j] == y as usize;
                            assert(ready@[j] == y as usize);
                        }
                    }
                }
            }
            proof {
                assert forall|y: int| 0 <= y < n && !placed_before(order@, order@.len() as int, y) implies #[trigger] in_degree@[y]
                    == count_feeders(steps@, order@, y, n as int) + if pending(row@, t + 1, y) { 1int } else { 0int } by {
                    if pending(row@, t + 1, y) {
                        let u = choose|u: int| t + 1 <= u < row@.len() && #[trigger] row@[u] as int == y;
                        assert(pending(row@, t as int, y));
                        assert(row@[t as int] < row@[u]);
                    }
                    if pending(row@, t as int, y) && y != next as int {
                        let u = choose|u: int| t <= u < row@.len() && #[trigger] row@[u] as int == y;
                        assert(u != t);
                    }
                }
            }
            t = t + 1;
        }
    }
    proof {
        assert forall|y: int| 0 <= y < n && !placed_before(order@, order@.len() as int, y) implies #[trigger] blocked(
            steps@,
            order@,
            order@.len() as int,
            y,
        ) by {
            if in_degree@[y] == 0 {
                assert(ready@.contains(y as usize));
            }
            lemma_count_zero(steps@, order@, y, n as int);
            let q = choose|q: int| !(0 <= q < n && #[trigger] feeds(steps@, q, y) ==> placed_before(order@, order@.len() as int, q));
        }
    }
    (order, is_placed)
}


/// The steps not yet placed, by name and then by position.
fn remaining_by_name(steps: &Vec<&Recipe>, is_placed: &Vec<bool>) -> (res: Vec<usize>)
    requires
        is_placed@.len() == steps@.len(),
    ensures
        forall|j: int| 0 <= j < res@.len() ==> #[trigger] res@[j] < steps@.len() && !is_placed@[res@[j] as int],
        forall|x: int| 0 <= x < steps@.len() && !#[trigger] is_placed@[x] ==> res@.contains(x as usize),
        forall|a: int, b: int| 0 <= a < b < res@.len() ==> before_by_name(steps@, res@[a] as int, res@[b] as int),
{
    let n = steps.len();
    let mut out: Vec<usize> = Vec::new();
    let mut x: usize = 0;
    while x < n
        invariant
            n == steps@.len(),
            is_placed@.len() == n,
            x <= n,
            forall|j: int| 0 <= j < out@.len() ==> #[trigger] out@[j] < x && !is_placed@[out@[j] as int],
            forall|y: int| 0 <= y < x && !#[trigger] is_placed@[y] ==> out@.contains(y as usize),
            forall|a: int, b: int| 0 <= a < b < out@.len() ==> before_by_name(steps@, out@[a] as int, out@[b] as int),
        decreases n - x,
    {
        if !is_placed[x] {
            let name = steps[x].name.as_str();
            let mut pos: usize = 0;
            while pos < out.len() && !name_lt(name, steps[out[pos]].name.as_str())
                invariant
                    n == steps@.len(),
                    x < n,
                    name@ == name_of(steps@, x as int),
                    pos <= out@.len(),
                    forall|j: int| 0 <= j < out@.len() ==> #[trigger] out@[j] < x,
                    forall|t: int| 0 <= t < pos ==> !chars_lt(name@, name_of(steps@, #[trigger] out@[t] as int)),
                decreases out.len() - pos,
            {
                pos = pos + 1;
            }
            let ghost old_out = out@;
            out.insert(pos, x);
            proof {
                assert forall|a: int, b: int| 0 <= a < b < out@.len() implies before_by_name(steps@, out@[a] as int, out@[b] as int) by {
                    if b == pos {
                        assert(out@[a] == old_out[a]);
                        lemma_lt_total(name@, name_of(steps@, old_out[a] as int));
                    } else if a == pos {
                        assert(out@[b] == old_out[b - 1]);
                        assert(chars_lt(name@, name_of(steps@, old_out[pos as int] as int)));
                        if b - 1 > pos {
                            assert(before_by_name(steps@, old_out[pos as int] as int, old_out[b - 1] as int));
                            if chars_lt(name_of(steps@, old_out[pos as int] as int), name_of(steps@, old_out[b - 1] as int)) {
                                lemma_lt_transitive(name@, name_of(steps@, old_out[pos as int] as int), name_of(steps@, old_out[b - 1] as int));
                            }
                        }
                    } else {
                        let ia = if a < pos { a } else { a - 1 };
                        let ib = if b < pos { b } else { b - 1 };
                        assert(out@[a] == old_out[ia]);
                        assert(out@[b] == old_out[ib]);
                    }
                }
                assert forall|y: int| 0 <= y < x + 1 && !#[trigger] is_placed@[y] implies out@.contains(y as usize) by {
                    if y < x {
                        let j = choose|j: int| 0 <= j < old_out.len() && old_out[j] == y as usize;
                        if j < pos {
                            assert(out@[j] == y as usize);
                        } else {
                            assert(out@[j + 1] == y as usize);
                        }
                    } else {
                        assert(out@[pos as int] == y as usize);
                    }
                }
                assert forall|j: int| 0 <= j < out@.len() implies #[trigger] out@[j] < x + 1 && !is_placed@[out@[j] as int] by {
                    if j < pos {
                        assert(out@[j] == old_out[j]);
                    } else if j > pos {
                        assert(out@[j] == old_out[j - 1]);
                    }
                }
            }
        }
        x = x + 1;
    }
    out
}

proof fn lemma_distinct_covering(s: Seq<usize>, n: int)
    requires
        0 <= n <= usize::MAX,
        forall|j: int| 0 <= j < s.len() ==> #[trigger] s[j] < n,
        forall|a: int, b: int| 0 <= a < b < s.len() ==> s[a] != s[b],
        forall|x: int| 0 <= x < n ==> #[trigger] s.contains(x as usize),
    ensures
        s.len() == n,
{
    lemma_distinct_bounded(s, n);
    let t = s.map_values(|x: usize| x as int);
    assert(t.no_duplicates()) by {
        assert forall|a: int, b: int| 0 <= a < t.len() && 0 <= b < t.len() && a != b implies t[a] != t[b] by {
            if a < b {
                assert(s[a] != s[b]);
            } else {
                assert(s[b] != s[a]);
            }
        }
    }
    t.unique_seq_to_set();
    lemma_int_range(0, n);
    assert forall|x: int| set_int_range(0, n).contains(x) implies t.to_set().contains(x) by {
        assert(s.contains(x as usize));
        let j = choose|j: int| 0 <= j < s.len() && s[j] == x as usize;
        assert(t[j] == x);
    }
    lemma_len_subset(set_int_range(0, n), t.to_set());
}

/// The order in which the steps are built: by Kahn's algorithm over the
/// relation "makes something the other consumes", the least recipe name first
/// among the steps that could go next, so the order is stable. A step is
/// never linked to itself, so a recipe that consumes its own product does not
/// hold itself back. Steps that remain when no step can go next (they lie on
/// or behind a cycle between different steps) follow by name, not dropped.
/// The result lists positions of `steps`.
pub fn topologically_order(steps: &Vec<&Recipe>) -> (res: Vec<usize>)
    ensures
        is_build_order(steps@, res@),
{
    let n = steps.len();
    let (adjacency, in_degree) = feed_graph(steps);
    let (order, is_placed) = place_by_dependency(steps, &adjacency, in_degree);
    let rest = remaining_by_name(steps, &is_placed);
    let m = order.len();
    let mut res = order;
    let mut j: usize = 0;
    while j < rest.len()
        invariant
            m <= res@.len(),
            res@.len() == m + j,
            j <= rest@.len(),
            forall|k: int| 0 <= k < m ==> res@[k] == order@[k],
            forall|k: int| 0 <= k < j ==> res@[m + k] == rest@[k],
        decreases rest.len() - j,
    {
        res.push(rest[j]);
        j = j + 1;
    }
    proof {
        assert(res@.subrange(0, m as int) =~= order@);
        assert forall|k: int, q: int| 0 <= k <= m implies #[trigger] placed_before(res@, k, q) == placed_before(order@, k, q) by {
            if placed_before(res@, k, q) {
                let t = choose|t: int| 0 <= t < k && t < res@.len() && #[trigger] res@[t] as int == q;
                assert(order@[t] as int == q);
            }
            if placed_before(order@, k, q) {
                let t = choose|t: int| 0 <= t < k && t < order@.len() && #[trigger] order@[t] as int == q;
                assert(res@[t] as int == q);
            }
        }
        assert forall|k: int| 0 <= k < m implies #[trigger] picks_least(steps@, res@, k) by {
            assert(picks_least(steps@, order@, k));
            assert forall|y: int| #[trigger] ready_at(steps@, res@, k, y) implies chars_le(
                name_of(steps@, res@[k] as int),
                name_of(steps@, y),
            ) by {
                assert forall|q: int| #[trigger] feeds(steps@, q, y) implies placed_before(order@, k, q) by {
                    assert(placed_before(res@, k, q));
                }
                assert(ready_at(steps@, order@, k, y));
            }
            let z = res@[k] as int;
            assert forall|q: int| #[trigger] feeds(steps@, q, z) implies placed_before(res@, k, q) by {
                assert(placed_before(order@, k, q));
            }
            assert(ready_at(steps@, res@, k, z));
        }
        assert forall|x: int| 0 <= x < n && !placed_before(res@, m as int, x) implies #[trigger] blocked(steps@, res@, m as int, x) by {
            assert(blocked(steps@, order@, m as int, x));
            let q = choose|q: int| #[trigger] feeds(steps@, q, x) && !placed_before(order@, m as int, q);
            assert(!placed_before(res@, m as int, q));
        }
        assert forall|a: int, b: int| m <= a < b < res@.len() implies before_by_name(steps@, res@[a] as int, res@[b] as int) by {
            assert(res@[a] == rest@[a - m]);
            assert(res@[b] == rest@[b - m]);
        }
        assert(phases(steps@, res@, m as int));
        // Each step appears once: placed ones in the first phase, the others after.
        assert forall|k: int| 0 <= k < res@.len() implies #[trigger] res@[k] < n by {
            if k >= m {
                assert(res@[k] == rest@[k - m]);
            }
        }
        assert forall|a: int, b: int| 0 <= a < b < res@.len() implies res@[a] != res@[b] by {
            if b >= m {
                assert(res@[b] == rest@[b - m]);
                if a >= m {
                    assert(res@[a] == rest@[a - m]);
                    assert(before_by_name(steps@, rest@[a - m] as int, rest@[b - m] as int));
                    if chars_lt(name_of(steps@, rest@[a - m] as int), name_of(steps@, rest@[b - m] as int)) {
                        crate::text::lemma_lt_irreflexive(name_of(steps@, rest@[a - m] as int));
                    }
                } else {
                    assert(!is_placed@[rest@[b - m] as int]);
                    assert(placed_before(order@, m as int, order@[a] as int));
                }
            }
        }
        assert forall|x: int| 0 <= x < n implies #[trigger] res@.contains(x as usize) by {
            if is_placed@[x] {
                let t = choose|t: int| 0 <= t < m && t < order@.len() && #[trigger] order@[t] as int == x;
                assert(res@[t] == x as usize);
            } else {
                assert(rest@.contains(x as usize));
                let t = choose|t: int| 0 <= t < rest@.len() && rest@[t] == x as usize;
                assert(res@[m + t] == x as usize);
            }
        }
        lemma_distinct_covering(res@, n as int);
    }
    res
}

proof fn least_ranked(steps: Seq<&Recipe>, order: Seq<usize>, m: int, rank: spec_fn(int) -> int, k: int) -> (x: int)
    requires
        exists|y: int| 0 <= y < k && !#[trigger] placed_before(order, m, y),
    ensures
        0 <= x < k,
        !placed_before(order, m, x),
        forall|y: int| 0 <= y < k && !#[trigger] placed_before(order, m, y) ==> rank(x) <= rank(y),
    decreases k,
{
    if exists|y: int| 0 <= y < k - 1 && !#[trigger] placed_before(order, m, y) {
        let x0 = least_ranked(steps, order, m, rank, k - 1);
        if !placed_before(order, m, k - 1) && rank(k - 1) < rank(x0) {
            k - 1
        } else {
            x0
        }
    } else {
        k - 1
    }
}

/// When the steps feed one another without a cycle, that is when some
/// ranking puts every step below each step it feeds, the build order places
/// every step after all the steps that feed it.
pub proof fn lemma_producers_before_consumers(steps: Seq<&Recipe>, order: Seq<usize>, rank: spec_fn(int) -> int)
    requires
        is_build_order(steps, order),
        forall|p: int, c: int| #[trigger] feeds(steps, p, c) ==> rank(p) < rank(c),
    ensures
        forall|a: int, b: int|
            0 <= a < order.len() && 0 <= b < order.len() && #[trigger] feeds(steps, order[a] as int, order[b] as int) ==> a < b,
{
    let n = steps.len() as int;
    let m = choose|m: int| phases(steps, order, m);
    if m < n {
        let x0 = order[m] as int;
        if placed_before(order, m, x0) {
            let t = choose|t: int| 0 <= t < m && t < order.len() && #[trigger] order[t] as int == x0;
            assert(order[t] != order[m]);
        }
        let x = least_ranked(steps, order, m, rank, n);
        assert(blocked(steps, order, m, x));
        let q = choose|q: int| #[trigger] feeds(steps, q, x) && !placed_before(order, m, q);
        assert(rank(q) < rank(x));
        assert(false);
    }
    assert forall|a: int, b: int|
        0 <= a < order.len() && 0 <= b < order.len() && #[trigger] feeds(steps, order[a] as int, order[b] as int) implies a < b by {
        assert(picks_least(steps, order, b));
        assert(placed_before(order, b, order[a] as int));
        let t = choose|t: int| 0 <= t < b && t < order.len() && #[trigger] order[t] as int == order[a] as int;
        if t != a {
            if t < a {
                assert(order[t] != order[a]);
            } else {
                assert(order[a] != order[t]);
            }
        }
    }
}

} // verus!
