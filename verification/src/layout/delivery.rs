//! What a finished grid carries off its machines: each output inserter's
//! claim on a belt run's lane, read straight off the grid. Many inserters
//! along one run share its capacity, so a claim is on a run and a lane, not
//! on a tile.
use vstd::prelude::*;

use crate::layout::error::LayoutError;
use crate::layout::grid::{entity_at, get_at, inserter_cells, run_anchor, spec_inserter_cells, spec_run_anchor, PlacedEntity};
use crate::layout::lane::{GridPos, LaneSide, MAX_REACH};
use crate::layout::validate::{is_machine, spec_is_machine};
use crate::names::NameSet;
use crate::prototype::{EntityCategory, Prototypes};
use crate::text::{chars_lt, is_strictly_sorted, name_eq, name_lt, texts};

verus! {

/// The far lane an inserter at `(ix, iy)` drops onto on the belt at
/// `(bx, by)`, if it reaches that belt at all.
pub open spec fn lane_between(ix: int, iy: int, bx: int, by: int) -> Option<LaneSide> {
    let dx = bx - ix;
    let dy = by - iy;
    if dx == 0 && dy == 0 {
        None
    } else if dx == 0 && -MAX_REACH <= dy <= MAX_REACH {
        Some(if dy > 0 { LaneSide::South } else { LaneSide::North })
    } else if dy == 0 && -MAX_REACH <= dx <= MAX_REACH {
        Some(if dx > 0 { LaneSide::East } else { LaneSide::West })
    } else {
        None
    }
}

fn far_lane(ix: i128, iy: i128, bx: i128, by: i128) -> (res: Option<LaneSide>)
    requires
        -0x1_0000_0000_0000_0000 <= ix <= 0x1_0000_0000_0000_0000,
        -0x1_0000_0000_0000_0000 <= iy <= 0x1_0000_0000_0000_0000,
        -0x1_0000_0000_0000_0000 <= bx <= 0x1_0000_0000_0000_0000,
        -0x1_0000_0000_0000_0000 <= by <= 0x1_0000_0000_0000_0000,
    ensures
        res == lane_between(ix as int, iy as int, bx as int, by as int),
{
    let dx = bx - ix;
    let dy = by - iy;
    if dx == 0 && dy == 0 {
        None
    } else if dx == 0 && -2 <= dy && dy <= 2 {
        Some(if dy > 0 { LaneSide::South } else { LaneSide::North })
    } else if dy == 0 && -2 <= dx && dx <= 2 {
        Some(if dx > 0 { LaneSide::East } else { LaneSide::West })
    } else {
        None
    }
}

/// One output inserter's claim: the recipe of the machine it picks up
/// from, its filter (none when unfiltered), the anchor of the belt run it
/// drops onto, and the lane.
pub type Claim = (Seq<char>, Option<Seq<char>>, GridPos, LaneSide);

/// The claim of entity `k`, when it is an output inserter: its pickup tile
/// holds a machine with a recipe, its drop tile a belt it reaches.
pub open spec fn claim_of(grid: Seq<PlacedEntity>, ps: Seq<crate::prototype::EntityPrototype>, k: int) -> Option<Claim> {
    let e = grid[k];
    if e.category != EntityCategory::Inserter {
        None
    } else {
        match spec_inserter_cells(e, ps) {
            None => None,
            Some((pk, ins)) => match (entity_at(grid, pk.0, pk.1), entity_at(grid, ins.0, ins.1)) {
                (Some(mi), Some(bi)) => {
                    if !spec_is_machine(grid[mi].category) || grid[bi].category != EntityCategory::Belt {
                        None
                    } else {
                        match (grid[mi].recipe, lane_between(e.top_left.x as int, e.top_left.y as int, ins.0, ins.1)) {
                            (Some(r), Some(lane)) => Some(
                                (
                                    r@,
                                    if e.filters@.len() > 0 { Some(e.filters@[0]@) } else { None },
                                    spec_run_anchor(grid, grid[bi]),
                                    lane,
                                ),
                            ),
                            _ => None,
                        }
                    }
                },
                _ => None,
            },
        }
    }
}

/// The claims of the first `n` entities, in grid order.
pub open spec fn claims_upto(grid: Seq<PlacedEntity>, ps: Seq<crate::prototype::EntityPrototype>, n: int) -> Seq<Claim>
    decreases n,
{
    if n <= 0 || n > grid.len() {
        Seq::empty()
    } else {
        match claim_of(grid, ps, n - 1) {
            Some(c) => claims_upto(grid, ps, n - 1).push(c),
            None => claims_upto(grid, ps, n - 1),
        }
    }
}

/// Every output inserter's claim, in grid order.
pub open spec fn claims(grid: Seq<PlacedEntity>, ps: Seq<crate::prototype::EntityPrototype>) -> Seq<Claim> {
    claims_upto(grid, ps, grid.len() as int)
}

/// A claim as owned values.
pub type ClaimOut = (String, Option<String>, GridPos, LaneSide);

pub open spec fn claim_view(c: ClaimOut) -> Claim {
    (c.0@, match c.1 {
        Some(f) => Some(f@),
        None => None,
    }, c.2, c.3)
}

fn claim_at(grid: &Vec<PlacedEntity>, protos: &Prototypes, k: usize) -> (res: Option<ClaimOut>)
    requires
        k < grid@.len(),
    ensures
        match res {
            Some(c) => claim_of(grid@, protos.spec_entries(), k as int) == Some(claim_view(c)),
            None => claim_of(grid@, protos.spec_entries(), k as int) is None,
        },
{
    let e = &grid[k];
    if e.category != EntityCategory::Inserter {
        return None;
    }
    let (pk, ins) = match inserter_cells(e, protos) {
        Some(c) => c,
        None => return None,
    };
    let mi = match get_at(grid, pk.0, pk.1) {
        Some(i) => i,
        None => return None,
    };
    let bi = match get_at(grid, ins.0, ins.1) {
        Some(i) => i,
        None => return None,
    };
    if !is_machine(grid[mi].category) || grid[bi].category != EntityCategory::Belt {
        return None;
    }
    let recipe = match &grid[mi].recipe {
        Some(r) => r.clone(),
        None => return None,
    };
    proof {
        // The drop tile lies on a belt, so its coordinates are near the grid's.
        assert(grid@[bi as int].top_left.x <= ins.0 < grid@[bi as int].top_left.x + grid@[bi as int].size.0);
        assert(grid@[bi as int].top_left.y <= ins.1 < grid@[bi as int].top_left.y + grid@[bi as int].size.1);
    }
    let lane = match far_lane(e.top_left.x as i128, e.top_left.y as i128, ins.0, ins.1) {
        Some(l) => l,
        None => return None,
    };
    let filter = if e.filters.len() > 0 { Some(e.filters[0].clone()) } else { None };
    let anchor = run_anchor(grid, &grid[bi]);
    Some((recipe, filter, anchor, lane))
}

/// Every output inserter's claim, in grid order.
pub fn output_claims(grid: &Vec<PlacedEntity>, protos: &Prototypes) -> (res: Vec<ClaimOut>)
    ensures
        res@.map_values(|c: ClaimOut| claim_view(c)) == claims(grid@, protos.spec_entries()),
{
    let mut out: Vec<ClaimOut> = Vec::new();
    let mut k: usize = 0;
    while k < grid.len()
        invariant
            k <= grid@.len(),
            out@.map_values(|c: ClaimOut| claim_view(c)) == claims_upto(grid@, protos.spec_entries(), k as int),
        decreases grid.len() - k,
    {
        let ghost before = out@;
        match claim_at(grid, protos, k) {
            Some(c) => {
                out.push(c);
                proof {
                    assert(out@.map_values(|c: ClaimOut| claim_view(c)) =~= before.map_values(|c: ClaimOut| claim_view(c)).push(
                        claim_view(c),
                    ));
                }
            },
            None => {},
        }
        k = k + 1;
    }
    out
}

/// Claim `c` is of `recipe`, and of `filter` unless any filter is taken.
pub open spec fn claim_matches(c: Claim, recipe: Seq<char>, any_filter: bool, filter: Option<Seq<char>>) -> bool {
    c.0 == recipe && (any_filter || c.1 == filter)
}

/// The run and lane pairs that the matching claims hold.
pub open spec fn lanes_claimed(cs: Seq<Claim>, recipe: Seq<char>, any_filter: bool, filter: Option<Seq<char>>) -> Set<(GridPos, LaneSide)> {
    Set::new(|rl: (GridPos, LaneSide)| exists|i: int| 0 <= i < cs.len() && #[trigger] claim_matches(cs[i], recipe, any_filter, filter) && (cs[i].2, cs[i].3) == rl)
}

/// How many distinct run lanes the output inserters of `recipe` claim:
/// all of them when `any_filter`, else those filtered for `filter` (`None`
/// for unfiltered). Two inserters claiming the same lane of one run share
/// it rather than doubling it.
pub fn claimed_lanes(
    grid: &Vec<PlacedEntity>,
    protos: &Prototypes,
    recipe: &str,
    any_filter: bool,
    filter: Option<&str>,
) -> (res: usize)
    ensures
        res == lanes_claimed(claims(grid@, protos.spec_entries()), recipe@, any_filter, match filter {
            Some(f) => Some(f@),
            None => None,
        }).len(),
{
    let cl = output_claims(grid, protos);
    let ghost cs = claims(grid@, protos.spec_entries());
    let ghost want: Option<Seq<char>> = match filter {
        Some(f) => Some(f@),
        None => None,
    };
    let mut seen: Vec<(GridPos, LaneSide)> = Vec::new();
    let mut i: usize = 0;
    while i < cl.len()
        invariant
            i <= cl@.len(),
            cl@.map_values(|c: ClaimOut| claim_view(c)) == cs,
            want == match filter {
                Some(f) => Some(f@),
                None => None::<Seq<char>>,
            },
            seen@.no_duplicates(),
            forall|rl: (GridPos, LaneSide)| #[trigger] seen@.contains(rl) <==> exists|t: int|
                0 <= t < i && #[trigger] claim_matches(cs[t], recipe@, any_filter, want) && (cs[t].2, cs[t].3) == rl,
        decreases cl.len() - i,
    {
        let c = &cl[i];
        let same_filter = match (&c.1, filter) {
            (Some(a), Some(b)) => name_eq(a.as_str(), b),
            (None, None) => true,
            _ => false,
        };
        proof {
            assert(*c == cl@[i as int]);
            assert(cs[i as int] == claim_view(*c));
            assert(same_filter == (cs[i as int].1 == want));
        }
        if name_eq(c.0.as_str(), recipe) && (any_filter || same_filter) {
            let rl = (c.2, c.3);
            let mut found = false;
            let mut t: usize = 0;
            while t < seen.len()
                invariant
                    t <= seen@.len(),
                    found <==> exists|u: int| 0 <= u < t && seen@[u] == rl,
                decreases seen.len() - t,
            {
                if seen[t].0 == rl.0 && seen[t].1 == rl.1 {
                    found = true;
                }
                t = t + 1;
            }
            let ghost before = seen@;
            if !found {
                seen.push(rl);
                proof {
                    assert forall|a: int, b: int| 0 <= a < seen@.len() && 0 <= b < seen@.len() && a != b implies seen@[a] != seen@[b] by {
                        if a == before.len() || b == before.len() {
                        } else {
                            assert(before[a] == seen@[a] && before[b] == seen@[b]);
                        }
                    }
                }
            }
            proof {
                assert forall|q: (GridPos, LaneSide)| #[trigger] seen@.contains(q) <==> exists|u: int|
                    0 <= u < i + 1 && #[trigger] claim_matches(cs[u], recipe@, any_filter, want) && (cs[u].2, cs[u].3) == q by {
                    if seen@.contains(q) && !before.contains(q) {
                        assert(q == rl);
                        assert(claim_matches(cs[i as int], recipe@, any_filter, want) && (cs[i as int].2, cs[i as int].3) == q);
                    }
                    if before.contains(q) {
                        let w = choose|w: int| 0 <= w < before.len() && before[w] == q;
                        assert(seen@[w] == q);
                    }
                    if exists|u: int| 0 <= u < i + 1 && #[trigger] claim_matches(cs[u], recipe@, any_filter, want) && (cs[u].2, cs[u].3) == q {
                        let u = choose|u: int| 0 <= u < i + 1 && #[trigger] claim_matches(cs[u], recipe@, any_filter, want) && (cs[u].2, cs[u].3) == q;
                        if u == i {
                            if found {
                                let w = choose|w: int| 0 <= w < before.len() && before[w] == rl;
                                assert(seen@[w] == q);
                            } else {
                                assert(seen@[before.len() as int] == q);
                            }
                        }
                    }
                }
            }
        } else {
            proof {
                assert forall|q: (GridPos, LaneSide)| #[trigger] seen@.contains(q) <==> exists|u: int|
                    0 <= u < i + 1 && #[trigger] claim_matches(cs[u], recipe@, any_filter, want) && (cs[u].2, cs[u].3) == q by {
                    if exists|u: int| 0 <= u < i + 1 && #[trigger] claim_matches(cs[u], recipe@, any_filter, want) && (cs[u].2, cs[u].3) == q {
                        let u = choose|u: int| 0 <= u < i + 1 && #[trigger] claim_matches(cs[u], recipe@, any_filter, want) && (cs[u].2, cs[u].3) == q;
                        if u == i {
                            assert(false);
                        }
                    }
                }
            }
        }
        i = i + 1;
    }
    proof {
        seen@.unique_seq_to_set();
        assert(seen@.to_set() =~= lanes_claimed(cs, recipe@, any_filter, want));
    }
    seen.len()
}

/// Run `p` of recipe `r`'s claims holds filtered claims for two different
/// items: some filtered claim on it is flagged.
pub open spec fn mixed_at(cs: Seq<Claim>, r: Seq<char>, p: GridPos) -> bool {
    exists|i: int| 0 <= i < cs.len() && cs[i].0 == r && cs[i].2 == p && #[trigger] flagged(cs, i)
}

/// `(r1, p1)` comes before `(r2, p2)`: by recipe name, then anchor x, then y.
pub open spec fn key_before(r1: Seq<char>, p1: GridPos, r2: Seq<char>, p2: GridPos) -> bool {
    chars_lt(r1, r2) || (r1 == r2 && (p1.x < p2.x || (p1.x == p2.x && p1.y < p2.y)))
}

/// The items claims of recipe `r` on run `p` are filtered for.
pub open spec fn items_at(cs: Seq<Claim>, r: Seq<char>, p: GridPos) -> Set<Seq<char>> {
    Set::new(|it: Seq<char>| exists|i: int| 0 <= i < cs.len() && #[trigger] cs[i].0 == r && cs[i].2 == p && cs[i].1 == Some(it))
}

/// Claim `t` is filtered, and another filtered claim on its recipe and run
/// is for a different item.
pub open spec fn flagged(cs: Seq<Claim>, t: int) -> bool {
    &&& cs[t].1 is Some
    &&& exists|j: int| 0 <= j < cs.len() && #[trigger] cs[j].0 == cs[t].0 && cs[j].2 == cs[t].2 && cs[j].1 is Some && cs[j].1 != cs[t].1
}

proof fn lemma_key_before_order(r1: Seq<char>, p1: GridPos, r2: Seq<char>, p2: GridPos, r3: Seq<char>, p3: GridPos)
    ensures
        !key_before(r1, p1, r1, p1),
        key_before(r1, p1, r2, p2) && key_before(r2, p2, r3, p3) ==> key_before(r1, p1, r3, p3),
        !key_before(r1, p1, r2, p2) && !key_before(r2, p2, r1, p1) ==> r1 == r2 && p1 == p2,
{
    crate::text::lemma_lt_irreflexive(r1);
    if chars_lt(r1, r2) && chars_lt(r2, r3) {
        crate::text::lemma_lt_transitive(r1, r2, r3);
    }
    crate::text::lemma_lt_total(r1, r2);
}

proof fn lemma_flagged_is_mixed(cs: Seq<Claim>, b: int)
    requires
        0 <= b < cs.len(),
        flagged(cs, b),
    ensures
        mixed_at(cs, cs[b].0, cs[b].2),
{
}

/// Whether claim `i` is flagged.
fn mixed_with_other(cl: &Vec<ClaimOut>, i: usize, Ghost(cs): Ghost<Seq<Claim>>) -> (res: bool)
    requires
        i < cl@.len(),
        cl@.map_values(|c: ClaimOut| claim_view(c)) == cs,
    ensures
        res == flagged(cs, i as int),
{
    proof {
        assert(cs[i as int] == claim_view(cl@[i as int]));
    }
    let a = &cl[i];
    let ia = match &a.1 {
        Some(x) => x.as_str(),
        None => return false,
    };
    let mut j: usize = 0;
    while j < cl.len()
        invariant
            j <= cl@.len(),
            i < cl@.len(),
            cl@.map_values(|c: ClaimOut| claim_view(c)) == cs,
            cs[i as int] == claim_view(*a),
            cs[i as int].1 == Some(ia@),
            forall|t: int|
                0 <= t < j ==> !(#[trigger] cs[t].0 == cs[i as int].0 && cs[t].2 == cs[i as int].2 && cs[t].1 is Some && cs[t].1 != cs[i as int].1),
        decreases cl.len() - j,
    {
        let b = &cl[j];
        proof {
            assert(cs[j as int] == claim_view(*b));
        }
        if name_eq(b.0.as_str(), a.0.as_str()) && b.2 == a.2 {
            match &b.1 {
                Some(ib) => {
                    if !name_eq(ib.as_str(), ia) {
                        proof {
                            assert(cs[j as int].1 != cs[i as int].1);
                            assert(cs[j as int].0 == cs[i as int].0 && cs[j as int].2 == cs[i as int].2 && cs[j as int].1 is Some);
                            assert(flagged(cs, i as int));
                        }
                        return true;
                    }
                },
                None => {},
            }
        }
        j = j + 1;
    }
    false
}

/// The flagged claim with the least recipe and run, the first such.
fn least_flagged(cl: &Vec<ClaimOut>, Ghost(cs): Ghost<Seq<Claim>>) -> (res: Option<usize>)
    requires
        cl@.map_values(|c: ClaimOut| claim_view(c)) == cs,
    ensures
        res matches Some(b) ==> b < cs.len() && flagged(cs, b as int) && forall|t: int|
            0 <= t < cs.len() && #[trigger] flagged(cs, t) ==> !key_before(cs[t].0, cs[t].2, cs[b as int].0, cs[b as int].2),
        res is None ==> forall|t: int| 0 <= t < cs.len() ==> !#[trigger] flagged(cs, t),
{
    let mut best: Option<usize> = None;
    let mut i: usize = 0;
    while i < cl.len()
        invariant
            i <= cl@.len(),
            cl@.map_values(|c: ClaimOut| claim_view(c)) == cs,
            best matches Some(b) ==> b < i && flagged(cs, b as int),
            best matches Some(b) ==> forall|t: int| 0 <= t < i && #[trigger] flagged(cs, t) ==> !key_before(cs[t].0, cs[t].2, cs[b as int].0, cs[b as int].2),
            best is None ==> forall|t: int| 0 <= t < i ==> !#[trigger] flagged(cs, t),
        decreases cl.len() - i,
    {
        proof {
            assert(cs[i as int] == claim_view(cl@[i as int]));
        }
        if mixed_with_other(cl, i, Ghost(cs)) {
            let better = match best {
                None => true,
                Some(b) => {
                    proof {
                        assert(cs[b as int] == claim_view(cl@[b as int]));
                    }
                    let (ra, pa) = (&cl[i].0, cl[i].2);
                    let (rb, pb) = (&cl[b].0, cl[b].2);
                    name_lt(ra.as_str(), rb.as_str()) || (name_eq(ra.as_str(), rb.as_str()) && (pa.x < pb.x || (pa.x == pb.x && pa.y < pb.y)))
                },
            };
            proof {
                if let Some(b) = best {
                    assert(better == key_before(cs[i as int].0, cs[i as int].2, cs[b as int].0, cs[b as int].2));
                }
            }
            if better {
                proof {
                    assert forall|t: int| 0 <= t < i + 1 && #[trigger] flagged(cs, t) implies !key_before(cs[t].0, cs[t].2, cs[i as int].0, cs[i as int].2) by {
                        lemma_key_before_order(cs[t].0, cs[t].2, cs[i as int].0, cs[i as int].2, cs[t].0, cs[t].2);
                        if let Some(b) = best {
                            lemma_key_before_order(cs[t].0, cs[t].2, cs[i as int].0, cs[i as int].2, cs[b as int].0, cs[b as int].2);
                        }
                    }
                }
                best = Some(i);
            } else {
                proof {
                    let b = best->0;
                    lemma_key_before_order(cs[i as int].0, cs[i as int].2, cs[b as int].0, cs[b as int].2, cs[i as int].0, cs[i as int].2);
                }
            }
        }
        i = i + 1;
    }
    best
}

/// The items filtered claims of `recipe` on the run at `anchor` are for, in
/// name order.
fn items_of(cl: &Vec<ClaimOut>, recipe: &str, anchor: GridPos, Ghost(cs): Ghost<Seq<Claim>>) -> (res: Vec<String>)
    requires
        cl@.map_values(|c: ClaimOut| claim_view(c)) == cs,
    ensures
        is_strictly_sorted(texts(res@)),
        texts(res@).to_set() == items_at(cs, recipe@, anchor),
{
    let mut items = NameSet::new();
    let mut t: usize = 0;
    while t < cl.len()
        invariant
            t <= cl@.len(),
            cl@.map_values(|c: ClaimOut| claim_view(c)) == cs,
            forall|it: Seq<char>| #[trigger] items@.contains(it) <==> exists|u: int|
                0 <= u < t && #[trigger] cs[u].0 == recipe@ && cs[u].2 == anchor && cs[u].1 == Some(it),
        decreases cl.len() - t,
    {
        let c = &cl[t];
        proof {
            assert(*c == cl@[t as int]);
            assert(cs[t as int] == claim_view(*c));
        }
        let ghost before = items@;
        let take = name_eq(c.0.as_str(), recipe) && c.2 == anchor;
        match &c.1 {
            Some(it) => {
                if take {
                    let v = it.clone();
                    items.insert(v);
                    proof {
                        assert(cs[t as int].1 == Some(it@));
                        assert forall|x: Seq<char>| #[trigger] items@.contains(x) <==> exists|u: int|
                            0 <= u < t + 1 && #[trigger] cs[u].0 == recipe@ && cs[u].2 == anchor && cs[u].1 == Some(x) by {
                            if x == it@ {
                                assert(cs[t as int].0 == recipe@ && cs[t as int].2 == anchor && cs[t as int].1 == Some(x));
                            }
                            if exists|u: int| 0 <= u < t + 1 && #[trigger] cs[u].0 == recipe@ && cs[u].2 == anchor && cs[u].1 == Some(x) {
                                let u = choose|u: int| 0 <= u < t + 1 && #[trigger] cs[u].0 == recipe@ && cs[u].2 == anchor && cs[u].1 == Some(x);
                                if u < t {
                                    assert(before.contains(x));
                                }
                            }
                        }
                    }
                } else {
                    proof {
                        assert forall|x: Seq<char>| #[trigger] items@.contains(x) <==> exists|u: int|
                            0 <= u < t + 1 && #[trigger] cs[u].0 == recipe@ && cs[u].2 == anchor && cs[u].1 == Some(x) by {
                            if exists|u: int| 0 <= u < t + 1 && #[trigger] cs[u].0 == recipe@ && cs[u].2 == anchor && cs[u].1 == Some(x) {
                                let u = choose|u: int| 0 <= u < t + 1 && #[trigger] cs[u].0 == recipe@ && cs[u].2 == anchor && cs[u].1 == Some(x);
                                if u < t {
                                    assert(before.contains(x));
                                }
                            }
                        }
                    }
                }
            },
            None => {
                proof {
                    assert forall|x: Seq<char>| #[trigger] items@.contains(x) <==> exists|u: int|
                        0 <= u < t + 1 && #[trigger] cs[u].0 == recipe@ && cs[u].2 == anchor && cs[u].1 == Some(x) by {
                        if exists|u: int| 0 <= u < t + 1 && #[trigger] cs[u].0 == recipe@ && cs[u].2 == anchor && cs[u].1 == Some(x) {
                            let u = choose|u: int| 0 <= u < t + 1 && #[trigger] cs[u].0 == recipe@ && cs[u].2 == anchor && cs[u].1 == Some(x);
                            if u < t {
                                assert(before.contains(x));
                            }
                        }
                    }
                }
            },
        }
        t = t + 1;
    }
    let names = items.into_names();
    proof {
        assert(texts(names@).to_set() =~= items_at(cs, recipe@, anchor));
    }
    names
}

/// No belt run is claimed by one recipe's output inserters filtered for two
/// different items: that belt would carry a mix nothing downstream can sort
/// apart. Keyed on the run alone, not on a lane or a tile: a downstream
/// inserter picks from both lanes of one run. The least offending recipe
/// and run is reported, with its items in name order.
pub fn check_no_mixed_product_belts(grid: &Vec<PlacedEntity>, protos: &Prototypes) -> (res: Result<(), LayoutError>)
    ensures
        ({
            let cs = claims(grid@, protos.spec_entries());
            match res {
                Ok(()) => forall|i: int| 0 <= i < cs.len() ==> !mixed_at(cs, #[trigger] cs[i].0, cs[i].2),
                Err(LayoutError::MixedProductBelt { recipe, items, x, y }) => {
                    let p = GridPos { x, y };
                    &&& mixed_at(cs, recipe@, p)
                    &&& forall|i: int| 0 <= i < cs.len() && mixed_at(cs, #[trigger] cs[i].0, cs[i].2) ==> !key_before(cs[i].0, cs[i].2, recipe@, p)
                    &&& is_strictly_sorted(texts(items@))
                    &&& texts(items@).to_set() == items_at(cs, recipe@, p)
                },
                Err(_) => false,
            }
        }),
{
    let cl = output_claims(grid, protos);
    let ghost cs = claims(grid@, protos.spec_entries());
    let best = least_flagged(&cl, Ghost(cs));
    let b = match best {
        None => return Ok(()),
        Some(b) => b,
    };
    proof {
        assert(cs[b as int] == claim_view(cl@[b as int]));
        lemma_flagged_is_mixed(cs, b as int);
    }
    let recipe = &cl[b].0;
    let anchor = cl[b].2;
    let items = items_of(&cl, recipe.as_str(), anchor, Ghost(cs));
    Err(LayoutError::MixedProductBelt { recipe: recipe.clone(), items, x: anchor.x, y: anchor.y })
}

} // verus!
