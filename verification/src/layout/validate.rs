//! Checks a finished grid is held to before it is emitted, re-derived from
//! the placed entities themselves (each inserter's reach from its own
//! prototype and facing) rather than from what placement intended.
use vstd::prelude::*;

use crate::layout::error::LayoutError;
use crate::layout::grid::{covers, entity_at, get_at, inserter_cells, spec_inserter_cells, PlacedEntity};
use crate::prototype::{EntityCategory, Prototypes};
use crate::recipe::{Recipe, RecipeRegistry};
use crate::registry::Named;

verus! {

/// Soft findings: warnings never block emission.
#[derive(Debug, Clone, PartialEq, Eq)]
pub struct Validation {
    pub warnings: Vec<String>,
}

/// A crafting machine, whose inserters the checks look for.
pub open spec fn spec_is_machine(c: EntityCategory) -> bool {
    c == EntityCategory::Assembler || c == EntityCategory::Furnace || c == EntityCategory::ChemicalPlant
        || c == EntityCategory::Refinery
}

pub fn is_machine(c: EntityCategory) -> (res: bool)
    ensures
        res == spec_is_machine(c),
{
    match c {
        EntityCategory::Assembler | EntityCategory::Furnace | EntityCategory::ChemicalPlant | EntityCategory::Refinery => true,
        _ => false,
    }
}

/// The recipe named `name` among `recipes`, if any.
pub open spec fn recipe_named(recipes: Seq<Recipe>, name: Seq<char>) -> Option<Recipe> {
    if exists|i: int| 0 <= i < recipes.len() && #[trigger] recipes[i].name@ == name {
        Some(recipes[choose|i: int| 0 <= i < recipes.len() && #[trigger] recipes[i].name@ == name])
    } else {
        None
    }
}

/// Whether a machine needs an input inserter and an output inserter: as its
/// recipe declares ingredients and results; both when its recipe is absent
/// or unknown, since it cannot prove it needs neither.
pub open spec fn spec_recipe_needs(recipes: Seq<Recipe>, m: PlacedEntity) -> (bool, bool) {
    match m.recipe {
        Some(r) => match recipe_named(recipes, r@) {
            Some(rec) => (rec.ingredients@.len() > 0, rec.results@.len() > 0),
            None => (true, true),
        },
        None => (true, true),
    }
}

fn recipe_needs(m: &PlacedEntity, recipes: &RecipeRegistry) -> (res: (bool, bool))
    ensures
        res == spec_recipe_needs(recipes.spec_entries(), *m),
{
    match &m.recipe {
        Some(r) => match recipes.get(r.as_str()) {
            Some(rec) => {
                proof {
                    let es = recipes.spec_entries();
                    let i = choose|i: int| 0 <= i < es.len() && es[i] == *rec && rec.name@ == r@;
                    assert(es[i].name@ == r@);
                    let j = choose|j: int| 0 <= j < es.len() && #[trigger] es[j].name@ == r@;
                    assert(es[j].key() == r@);
                }
                (rec.ingredients.len() > 0, rec.results.len() > 0)
            },
            None => {
                proof {
                    let es = recipes.spec_entries();
                    assert forall|i: int| 0 <= i < es.len() implies #[trigger] es[i].name@ != r@ by {
                        assert(es[i].key() != r@);
                    }
                }
                (true, true)
            },
        },
        None => (true, true),
    }
}

/// Entity `k` is an inserter dropping into a tile of `m`.
pub open spec fn drops_into(grid: Seq<PlacedEntity>, ps: Seq<crate::prototype::EntityPrototype>, k: int, m: PlacedEntity) -> bool {
    grid[k].category == EntityCategory::Inserter && match spec_inserter_cells(grid[k], ps) {
        Some((_, ins)) => covers(m, ins.0, ins.1),
        None => false,
    }
}

/// Entity `k` is an inserter picking up from a tile of `m`.
pub open spec fn picks_from(grid: Seq<PlacedEntity>, ps: Seq<crate::prototype::EntityPrototype>, k: int, m: PlacedEntity) -> bool {
    grid[k].category == EntityCategory::Inserter && match spec_inserter_cells(grid[k], ps) {
        Some((pk, _)) => covers(m, pk.0, pk.1),
        None => false,
    }
}

/// Some inserter drops into a tile of `m`.
pub open spec fn fed(grid: Seq<PlacedEntity>, ps: Seq<crate::prototype::EntityPrototype>, m: PlacedEntity) -> bool {
    exists|k: int| 0 <= k < grid.len() && #[trigger] drops_into(grid, ps, k, m)
}

/// Some inserter picks up from a tile of `m`.
pub open spec fn drained(grid: Seq<PlacedEntity>, ps: Seq<crate::prototype::EntityPrototype>, m: PlacedEntity) -> bool {
    exists|k: int| 0 <= k < grid.len() && #[trigger] picks_from(grid, ps, k, m)
}

/// Machine `m` has every inserter its recipe needs.
pub open spec fn connected(
    grid: Seq<PlacedEntity>,
    ps: Seq<crate::prototype::EntityPrototype>,
    recipes: Seq<Recipe>,
    m: PlacedEntity,
) -> bool {
    let needs = spec_recipe_needs(recipes, m);
    (needs.0 ==> fed(grid, ps, m)) && (needs.1 ==> drained(grid, ps, m))
}

/// Whether some inserter of `grid` drops into (`input`) or picks up from a
/// tile of `m`.
fn has_inserter(grid: &Vec<PlacedEntity>, protos: &Prototypes, m: &PlacedEntity, input: bool) -> (res: bool)
    ensures
        input ==> res == fed(grid@, protos.spec_entries(), *m),
        !input ==> res == drained(grid@, protos.spec_entries(), *m),
{
    let ghost ps = protos.spec_entries();
    let mx = m.top_left.x as i128;
    let my = m.top_left.y as i128;
    let mut k: usize = 0;
    while k < grid.len()
        invariant
            k <= grid@.len(),
            ps == protos.spec_entries(),
            mx == m.top_left.x,
            my == m.top_left.y,
            input ==> forall|j: int| 0 <= j < k ==> !#[trigger] drops_into(grid@, ps, j, *m),
            !input ==> forall|j: int| 0 <= j < k ==> !#[trigger] picks_from(grid@, ps, j, *m),
        decreases grid.len() - k,
    {
        if grid[k].category == EntityCategory::Inserter {
            match inserter_cells(&grid[k], protos) {
                Some((pk, ins)) => {
                    let c = if input { ins } else { pk };
                    if mx <= c.0 && c.0 < mx + m.size.0 as i128 && my <= c.1 && c.1 < my + m.size.1 as i128 {
                        proof {
                            if input {
                                assert(drops_into(grid@, ps, k as int, *m));
                            } else {
                                assert(picks_from(grid@, ps, k as int, *m));
                            }
                        }
                        return true;
                    }
                },
                None => {},
            }
        }
        k = k + 1;
    }
    false
}

/// The first machine of `grid`, by position, that lacks an inserter its
/// recipe needs.
pub open spec fn unconnected_at(
    grid: Seq<PlacedEntity>,
    ps: Seq<crate::prototype::EntityPrototype>,
    recipes: Seq<Recipe>,
    i: int,
) -> bool {
    &&& 0 <= i < grid.len()
    &&& spec_is_machine(grid[i].category) && !connected(grid, ps, recipes, grid[i])
    &&& forall|j: int| 0 <= j < i && spec_is_machine(#[trigger] grid[j].category) ==> connected(grid, ps, recipes, grid[j])
}

/// The first machine lacking an inserter, reported by its label, its
/// top-left tile and the side it lacks, its input before its output.
pub open spec fn unconnected_reported(
    grid: Seq<PlacedEntity>,
    ps: Seq<crate::prototype::EntityPrototype>,
    recipes: Seq<Recipe>,
    recipe: Seq<char>,
    x: i32,
    y: i32,
    missing: Seq<char>,
) -> bool {
    exists|i: int|
        #[trigger] unconnected_at(grid, ps, recipes, i) && recipe == label(grid[i]) && x == grid[i].top_left.x && y
            == grid[i].top_left.y && missing == (if spec_recipe_needs(recipes, grid[i]).0 && !fed(grid, ps, grid[i]) {
            "input"@
        } else {
            "output"@
        })
}

/// The name a finding uses for an entity: its recipe, else its prototype.
pub open spec fn label(e: PlacedEntity) -> Seq<char> {
    match e.recipe {
        Some(r) => r@,
        None => e.name@,
    }
}

pub(crate) fn label_of(e: &PlacedEntity) -> (res: String)
    ensures
        res@ == label(*e),
{
    match &e.recipe {
        Some(r) => r.clone(),
        None => e.name.clone(),
    }
}

/// What the connectivity check answers: `Ok` when every machine has the
/// inserters its recipe needs, else the first machine that lacks one.
pub open spec fn connectivity_checked(
    grid: Seq<PlacedEntity>,
    ps: Seq<crate::prototype::EntityPrototype>,
    rs: Seq<Recipe>,
    res: Result<(), LayoutError>,
) -> bool {
    match res {
        Ok(()) => forall|i: int| 0 <= i < grid.len() && spec_is_machine(#[trigger] grid[i].category) ==> connected(grid, ps, rs, grid[i]),
        Err(LayoutError::MachineNotConnected { recipe, x, y, missing }) => unconnected_reported(grid, ps, rs, recipe@, x, y, missing@),
        Err(_) => false,
    }
}

/// A grid passes the connectivity check only if every crafting machine
/// (assembler, furnace, chemical plant or refinery) whose recipe has
/// ingredients has an inserter dropping into one of its tiles, and every one
/// whose recipe has results has an inserter picking up from one of its tiles.
pub proof fn lemma_connected_grid_feeds_every_crafting_machine(
    grid: Seq<PlacedEntity>,
    ps: Seq<crate::prototype::EntityPrototype>,
    rs: Seq<Recipe>,
    i: int,
    r: String,
    rec: Recipe,
)
    requires
        connectivity_checked(grid, ps, rs, Ok(())),
        0 <= i < grid.len(),
        grid[i].category == EntityCategory::Assembler || grid[i].category == EntityCategory::Furnace || grid[i].category
            == EntityCategory::ChemicalPlant || grid[i].category == EntityCategory::Refinery,
        grid[i].recipe == Some(r),
        recipe_named(rs, r@) == Some(rec),
    ensures
        rec.ingredients@.len() > 0 ==> exists|k: int| 0 <= k < grid.len() && #[trigger] drops_into(grid, ps, k, grid[i]),
        rec.results@.len() > 0 ==> exists|k: int| 0 <= k < grid.len() && #[trigger] picks_from(grid, ps, k, grid[i]),
{
    assert(connected(grid, ps, rs, grid[i]));
}

/// A refusal names a crafting machine (assembler, furnace, chemical plant or
/// refinery) at the reported tile that lacks an inserter on the reported
/// side.
pub proof fn lemma_unconnected_names_a_crafting_machine(
    grid: Seq<PlacedEntity>,
    ps: Seq<crate::prototype::EntityPrototype>,
    rs: Seq<Recipe>,
    res: Result<(), LayoutError>,
)
    requires
        connectivity_checked(grid, ps, rs, res),
        res is Err,
    ensures
        res matches Err(LayoutError::MachineNotConnected { x, y, missing, .. }) && exists|i: int|
            #![trigger grid[i]]
            0 <= i < grid.len() && grid[i].top_left.x == x && grid[i].top_left.y == y && (grid[i].category
                == EntityCategory::Assembler || grid[i].category == EntityCategory::Furnace || grid[i].category
                == EntityCategory::ChemicalPlant || grid[i].category == EntityCategory::Refinery) && (missing@ == "input"@
                ==> !(exists|k: int| 0 <= k < grid.len() && #[trigger] drops_into(grid, ps, k, grid[i]))),
{
    if let Err(LayoutError::MachineNotConnected { recipe, x, y, missing }) = res {
        let i = choose|i: int|
            #[trigger] unconnected_at(grid, ps, rs, i) && recipe@ == label(grid[i]) && x == grid[i].top_left.x && y
                == grid[i].top_left.y && missing@ == (if spec_recipe_needs(rs, grid[i]).0 && !fed(grid, ps, grid[i]) {
                "input"@
            } else {
                "output"@
            });
        reveal_strlit("input");
        reveal_strlit("output");
        assert(unconnected_at(grid, ps, rs, i));
        assert("input"@[0] != "output"@[0]);
        if missing@ == "input"@ {
            assert(!fed(grid, ps, grid[i]));
        }
        assert(spec_is_machine(grid[i].category));
    } else {
        assert(false);
    }
}

/// Every machine whose recipe has ingredients has an inserter dropping into
/// one of its tiles, and every machine whose recipe has results has one
/// picking up from one of its tiles. The first machine that fails is
/// reported, its missing input before its missing output.
pub fn check_machine_connectivity(
    grid: &Vec<PlacedEntity>,
    protos: &Prototypes,
    recipes: &RecipeRegistry,
) -> (res: Result<(), LayoutError>)
    ensures
        connectivity_checked(grid@, protos.spec_entries(), recipes.spec_entries(), res),
{
    let ghost ps = protos.spec_entries();
    let ghost rs = recipes.spec_entries();
    let mut i: usize = 0;
    while i < grid.len()
        invariant
            i <= grid@.len(),
            ps == protos.spec_entries(),
            rs == recipes.spec_entries(),
            forall|j: int| 0 <= j < i && spec_is_machine(#[trigger] grid@[j].category) ==> connected(grid@, ps, rs, grid@[j]),
        decreases grid.len() - i,
    {
        let m = &grid[i];
        if is_machine(m.category) {
            let (needs_input, needs_output) = recipe_needs(m, recipes);
            if needs_input && !has_inserter(grid, protos, m, true) {
                proof {
                    reveal_strlit("input");
                    assert(unconnected_at(grid@, ps, rs, i as int));
                }
                return Err(LayoutError::MachineNotConnected {
                    recipe: label_of(m),
                    x: m.top_left.x,
                    y: m.top_left.y,
                    missing: String::from_str("input"),
                });
            }
            if needs_output && !has_inserter(grid, protos, m, false) {
                proof {
                    reveal_strlit("output");
                    assert(unconnected_at(grid@, ps, rs, i as int));
                }
                return Err(LayoutError::MachineNotConnected {
                    recipe: label_of(m),
                    x: m.top_left.x,
                    y: m.top_left.y,
                    missing: String::from_str("output"),
                });
            }
        }
        i = i + 1;
    }
    Ok(())
}

/// Footprints `a` and `b` share a tile.
pub open spec fn footprints_meet(a: PlacedEntity, b: PlacedEntity) -> bool {
    &&& a.size.0 >= 1 && a.size.1 >= 1 && b.size.0 >= 1 && b.size.1 >= 1
    &&& a.top_left.x < b.top_left.x + b.size.0 && b.top_left.x < a.top_left.x + a.size.0
    &&& a.top_left.y < b.top_left.y + b.size.1 && b.top_left.y < a.top_left.y + a.size.1
}

pub open spec fn max_i(a: int, b: int) -> int {
    if a >= b { a } else { b }
}

/// The overlap reported at `(x, y)`: entity `b` is the first, by
/// position, whose footprint meets an earlier one's, `a` the first earlier
/// one it meets, and `(x, y)` the top-left tile both cover.
pub open spec fn overlap_reported(grid: Seq<PlacedEntity>, x: int, y: int) -> bool {
    exists|a: int, b: int|
        0 <= a < b < grid.len() && #[trigger] footprints_meet(grid[a], grid[b]) && (forall|i: int, j: int|
            0 <= i < j < b ==> !footprints_meet(grid[i], grid[j])) && (forall|i: int|
            0 <= i < a ==> !footprints_meet(#[trigger] grid[i], grid[b])) && x == max_i(
            grid[a].top_left.x as int,
            grid[b].top_left.x as int,
        ) && y == max_i(grid[a].top_left.y as int, grid[b].top_left.y as int) && covers(grid[a], x, y) && covers(
            grid[b],
            x,
            y,
        )
}

/// No two entities of `grid` share a tile. The first entity, by position,
/// whose footprint meets an earlier one's is reported at the first tile of
/// the two footprints' overlap.
pub fn check_no_overlaps(grid: &Vec<PlacedEntity>) -> (res: Result<(), LayoutError>)
    ensures
        res is Ok <==> forall|a: int, b: int| 0 <= a < b < grid@.len() ==> !footprints_meet(grid@[a], grid@[b]),
        res matches Err(LayoutError::Overlap { x, y }) ==> overlap_reported(grid@, x as int, y as int),
        res matches Err(e) ==> e is Overlap,
{
    let mut b: usize = 0;
    while b < grid.len()
        invariant
            b <= grid@.len(),
            forall|i: int, j: int| 0 <= i < j < b ==> !footprints_meet(grid@[i], grid@[j]),
        decreases grid.len() - b,
    {
        let mut a: usize = 0;
        while a < b
            invariant
                a <= b < grid@.len(),
                forall|i: int, j: int| 0 <= i < j < b ==> !footprints_meet(grid@[i], grid@[j]),
                forall|i: int| 0 <= i < a ==> !footprints_meet(#[trigger] grid@[i], grid@[b as int]),
            decreases b - a,
        {
            let p = &grid[a];
            let q = &grid[b];
            let (px, py) = (p.top_left.x as i64, p.top_left.y as i64);
            let (qx, qy) = (q.top_left.x as i64, q.top_left.y as i64);
            if p.size.0 >= 1 && p.size.1 >= 1 && q.size.0 >= 1 && q.size.1 >= 1 && px < qx + q.size.0 as i64 && qx < px
                + p.size.0 as i64 && py < qy + q.size.1 as i64 && qy < py + p.size.1 as i64 {
                let x = if px >= qx { p.top_left.x } else { q.top_left.x };
                let y = if py >= qy { p.top_left.y } else { q.top_left.y };
                proof {
                    assert(footprints_meet(grid@[a as int], grid@[b as int]));
                    assert(covers(grid@[a as int], x as int, y as int));
                    assert(covers(grid@[b as int], x as int, y as int));
                    assert(overlap_reported(grid@, x as int, y as int));
                }
                return Err(LayoutError::Overlap { x, y });
            }
            a = a + 1;
        }
        b = b + 1;
    }
    Ok(())
}

/// Entities Factorio requires an electrical connection for; belts, pipes,
/// splitters and poles draw no power.
pub open spec fn spec_needs_power(c: EntityCategory) -> bool {
    c == EntityCategory::Inserter || c == EntityCategory::Assembler || c == EntityCategory::Furnace || c
        == EntityCategory::ChemicalPlant || c == EntityCategory::Refinery || c == EntityCategory::Beacon || c
        == EntityCategory::Combinator || c == EntityCategory::Lamp
}

pub fn needs_power(c: EntityCategory) -> (res: bool)
    ensures
        res == spec_needs_power(c),
{
    match c {
        EntityCategory::Inserter | EntityCategory::Assembler | EntityCategory::Furnace | EntityCategory::ChemicalPlant
        | EntityCategory::Refinery | EntityCategory::Beacon | EntityCategory::Combinator | EntityCategory::Lamp => true,
        _ => false,
    }
}

/// The supply square of a pole with top-left `(px, py)` and footprint
/// `(w, h)` reaching `d` tiles from its centre overlaps the footprint of
/// `e`. Strict: a boundary that only grazes does not power.
pub open spec fn supply_overlaps(px: int, py: int, w: int, h: int, d: crate::prototype::Frac, e: PlacedEntity) -> bool {
    let m = d.den as int;
    let n = d.num as int;
    let ex = e.top_left.x as int;
    let ey = e.top_left.y as int;
    &&& 2 * m * ex < 2 * m * px + m * w + 2 * n
    &&& 2 * m * (ex + e.size.0) > 2 * m * px + m * w - 2 * n
    &&& 2 * m * ey < 2 * m * py + m * h + 2 * n
    &&& 2 * m * (ey + e.size.1) > 2 * m * py + m * h - 2 * n
}

/// Entity `k` is a pole, known to the registry with a supply area, whose
/// supply square overlaps `e`.
pub open spec fn powers(grid: Seq<PlacedEntity>, ps: Seq<crate::prototype::EntityPrototype>, k: int, e: PlacedEntity) -> bool {
    &&& grid[k].category == EntityCategory::ElectricPole
    &&& crate::layout::grid::proto_named(ps, grid[k].name@) matches Some(p)
    &&& p.supply_area_distance matches Some(d)
    &&& d.den > 0
    &&& supply_overlaps(grid[k].top_left.x as int, grid[k].top_left.y as int, grid[k].size.0 as int, grid[k].size.1 as int, d, e)
}

/// Some pole of `grid` powers `e`.
pub open spec fn powered(grid: Seq<PlacedEntity>, ps: Seq<crate::prototype::EntityPrototype>, e: PlacedEntity) -> bool {
    exists|k: int| 0 <= k < grid.len() && #[trigger] powers(grid, ps, k, e)
}

/// Entity `e` needs power and no pole of `grid` supplies it.
pub open spec fn unpowered(grid: Seq<PlacedEntity>, ps: Seq<crate::prototype::EntityPrototype>, e: PlacedEntity) -> bool {
    spec_needs_power(e.category) && !powered(grid, ps, e)
}

/// The top-left tiles of the first `n` entities that need power and lack it.
pub open spec fn gaps_upto(grid: Seq<PlacedEntity>, ps: Seq<crate::prototype::EntityPrototype>, n: int) -> Seq<crate::layout::lane::GridPos>
    decreases n,
{
    if n <= 0 || n > grid.len() {
        Seq::empty()
    } else if unpowered(grid, ps, grid[n - 1]) {
        gaps_upto(grid, ps, n - 1).push(grid[n - 1].top_left)
    } else {
        gaps_upto(grid, ps, n - 1)
    }
}

/// Whether a pole with top-left `(px, py)`, footprint `(w, h)` and reach `d`
/// powers `e`.
pub fn overlaps_supply(px: i64, py: i64, w: u32, h: u32, d: crate::prototype::Frac, e: &PlacedEntity) -> (res: bool)
    requires
        d.wf(),
        -0x1_0000_0000 <= px <= 0x1_0000_0000,
        -0x1_0000_0000 <= py <= 0x1_0000_0000,
    ensures
        res == supply_overlaps(px as int, py as int, w as int, h as int, d, *e),
{
    let m = d.den as i128;
    let n = d.num as i128;
    let ex = e.top_left.x as i128;
    let ey = e.top_left.y as i128;
    proof {
        assert(-0x1_0000_0000_0000_0000_0000_0000_0000 <= 2 * m * ex <= 0x1_0000_0000_0000_0000_0000_0000_0000) by (nonlinear_arith)
            requires
                0 < m <= 0x7fff_ffff_ffff_ffff,
                -0x8000_0000 <= ex <= 0x7fff_ffff,
        ;
        assert(-0x1_0000_0000_0000_0000_0000_0000_0000 <= 2 * m * (ex + e.size.0) <= 0x1_0000_0000_0000_0000_0000_0000_0000) by (nonlinear_arith)
            requires
                0 < m <= 0x7fff_ffff_ffff_ffff,
                -0x8000_0000 <= ex <= 0x7fff_ffff,
                0 <= e.size.0 <= 0xffff_ffff,
        ;
        assert(-0x1_0000_0000_0000_0000_0000_0000_0000 <= 2 * m * ey <= 0x1_0000_0000_0000_0000_0000_0000_0000) by (nonlinear_arith)
            requires
                0 < m <= 0x7fff_ffff_ffff_ffff,
                -0x8000_0000 <= ey <= 0x7fff_ffff,
        ;
        assert(-0x1_0000_0000_0000_0000_0000_0000_0000 <= 2 * m * (ey + e.size.1) <= 0x1_0000_0000_0000_0000_0000_0000_0000) by (nonlinear_arith)
            requires
                0 < m <= 0x7fff_ffff_ffff_ffff,
                -0x8000_0000 <= ey <= 0x7fff_ffff,
                0 <= e.size.1 <= 0xffff_ffff,
        ;
        assert(-0x1_0000_0000_0000_0000_0000_0000_0000 <= 2 * m * px <= 0x1_0000_0000_0000_0000_0000_0000_0000) by (nonlinear_arith)
            requires
                0 < m <= 0x7fff_ffff_ffff_ffff,
                -0x1_0000_0000 <= px <= 0x1_0000_0000,
        ;
        assert(-0x1_0000_0000_0000_0000_0000_0000_0000 <= 2 * m * py <= 0x1_0000_0000_0000_0000_0000_0000_0000) by (nonlinear_arith)
            requires
                0 < m <= 0x7fff_ffff_ffff_ffff,
                -0x1_0000_0000 <= py <= 0x1_0000_0000,
        ;
        assert(0 <= m * w <= 0x1_0000_0000_0000_0000_0000_0000) by (nonlinear_arith)
            requires
                0 < m <= 0x7fff_ffff_ffff_ffff,
                0 <= w <= 0xffff_ffff,
        ;
        assert(0 <= m * h <= 0x1_0000_0000_0000_0000_0000_0000) by (nonlinear_arith)
            requires
                0 < m <= 0x7fff_ffff_ffff_ffff,
                0 <= h <= 0xffff_ffff,
        ;
    }
    let cx = 2 * m * (px as i128) + m * (w as i128);
    let cy = 2 * m * (py as i128) + m * (h as i128);
    2 * m * ex < cx + 2 * n && 2 * m * (ex + e.size.0 as i128) > cx - 2 * n && 2 * m * ey < cy + 2 * n && 2 * m * (ey
        + e.size.1 as i128) > cy - 2 * n
}

/// Whether some pole of `grid` powers `e`.
pub fn is_powered(grid: &Vec<PlacedEntity>, protos: &Prototypes, e: &PlacedEntity) -> (res: bool)
    ensures
        res == powered(grid@, protos.spec_entries(), *e),
{
    let ghost ps = protos.spec_entries();
    let mut k: usize = 0;
    while k < grid.len()
        invariant
            k <= grid@.len(),
            ps == protos.spec_entries(),
            forall|j: int| 0 <= j < k ==> !#[trigger] powers(grid@, ps, j, *e),
        decreases grid.len() - k,
    {
        let p = &grid[k];
        if p.category == EntityCategory::ElectricPole {
            match crate::layout::grid::find_proto(protos, p.name.as_str()) {
                Some(pp) => match pp.supply_area_distance {
                    Some(d) => {
                        if overlaps_supply(p.top_left.x as i64, p.top_left.y as i64, p.size.0, p.size.1, d, e) {
                            proof {
                                assert(powers(grid@, ps, k as int, *e));
                            }
                            return true;
                        }
                    },
                    None => {},
                },
                None => {},
            }
        }
        k = k + 1;
    }
    false
}

/// Entities that need power and that no pole's supply area reaches, by
/// top-left tile, in grid order. Each pole's reach is read from its own
/// prototype, so the answer is about the grid as it stands.
pub fn coverage_gaps(grid: &Vec<PlacedEntity>, protos: &Prototypes) -> (res: Vec<crate::layout::lane::GridPos>)
    ensures
        res@ == gaps_upto(grid@, protos.spec_entries(), grid@.len() as int),
{
    let ghost ps = protos.spec_entries();
    let mut out: Vec<crate::layout::lane::GridPos> = Vec::new();
    let mut i: usize = 0;
    while i < grid.len()
        invariant
            i <= grid@.len(),
            ps == protos.spec_entries(),
            out@ == gaps_upto(grid@, ps, i as int),
        decreases grid.len() - i,
    {
        let e = &grid[i];
        if needs_power(e.category) && !is_powered(grid, protos, e) {
            out.push(e.top_left);
        }
        i = i + 1;
    }
    out
}

/// Some entity among the first `n` lacks power and has its top-left at `p`.
spec fn gap_of(grid: Seq<PlacedEntity>, ps: Seq<crate::prototype::EntityPrototype>, n: int, p: crate::layout::lane::GridPos) -> bool {
    exists|i: int| 0 <= i < n && unpowered(grid, ps, #[trigger] grid[i]) && grid[i].top_left == p
}

/// The gaps of the first `n` entities are the top-left tiles of exactly
/// those among them that lack power.
proof fn lemma_gaps_upto(grid: Seq<PlacedEntity>, ps: Seq<crate::prototype::EntityPrototype>, n: int)
    requires
        0 <= n <= grid.len(),
    ensures
        forall|i: int| 0 <= i < n && unpowered(grid, ps, #[trigger] grid[i]) ==> gaps_upto(grid, ps, n).contains(grid[i].top_left),
        forall|j: int| 0 <= j < gaps_upto(grid, ps, n).len() ==> gap_of(grid, ps, n, #[trigger] gaps_upto(grid, ps, n)[j]),
    decreases n,
{
    if n > 0 {
        lemma_gaps_upto(grid, ps, n - 1);
        let prev = gaps_upto(grid, ps, n - 1);
        let cur = gaps_upto(grid, ps, n);
        assert forall|i: int| 0 <= i < n && unpowered(grid, ps, #[trigger] grid[i]) implies cur.contains(grid[i].top_left) by {
            if i < n - 1 {
                let j = choose|j: int| 0 <= j < prev.len() && prev[j] == grid[i].top_left;
                assert(cur[j] == prev[j]);
            } else {
                assert(cur[prev.len() as int] == grid[i].top_left);
            }
        }
        assert forall|j: int| 0 <= j < cur.len() implies gap_of(grid, ps, n, #[trigger] cur[j]) by {
            if j < prev.len() {
                assert(cur[j] == prev[j]);
                assert(gap_of(grid, ps, n - 1, prev[j]));
                let i = choose|i: int| 0 <= i < n - 1 && unpowered(grid, ps, #[trigger] grid[i]) && grid[i].top_left == prev[j];
                assert(unpowered(grid, ps, grid[i]));
            } else {
                assert(unpowered(grid, ps, grid[n - 1]));
                assert(grid[n - 1].top_left == cur[j]);
            }
        }
    }
}

/// Every entity that draws power (an inserter, a crafting machine:
/// assembler, furnace, chemical plant or refinery, a beacon, a combinator or
/// a lamp) that no pole's supply area overlaps is a coverage gap.
pub proof fn lemma_unpowered_consumers_are_gaps(grid: Seq<PlacedEntity>, ps: Seq<crate::prototype::EntityPrototype>, i: int)
    requires
        0 <= i < grid.len(),
        grid[i].category == EntityCategory::Inserter || grid[i].category == EntityCategory::Assembler || grid[i].category
            == EntityCategory::Furnace || grid[i].category == EntityCategory::ChemicalPlant || grid[i].category
            == EntityCategory::Refinery || grid[i].category == EntityCategory::Beacon || grid[i].category
            == EntityCategory::Combinator || grid[i].category == EntityCategory::Lamp,
        forall|k: int| 0 <= k < grid.len() ==> !#[trigger] powers(grid, ps, k, grid[i]),
    ensures
        gaps_upto(grid, ps, grid.len() as int).contains(grid[i].top_left),
{
    lemma_gaps_upto(grid, ps, grid.len() as int);
    assert(unpowered(grid, ps, grid[i]));
}

/// Every coverage gap is the top-left tile of an entity that draws power (an
/// inserter, a crafting machine, a beacon, a combinator or a lamp) and that
/// no pole's supply area overlaps; belts, poles, pipes, containers and the
/// like are never gaps.
pub proof fn lemma_gaps_are_unpowered_consumers(grid: Seq<PlacedEntity>, ps: Seq<crate::prototype::EntityPrototype>, j: int)
    requires
        0 <= j < gaps_upto(grid, ps, grid.len() as int).len(),
    ensures
        exists|i: int|
            #![trigger grid[i]]
            0 <= i < grid.len() && grid[i].top_left == gaps_upto(grid, ps, grid.len() as int)[j] && (grid[i].category
                == EntityCategory::Inserter || grid[i].category == EntityCategory::Assembler || grid[i].category
                == EntityCategory::Furnace || grid[i].category == EntityCategory::ChemicalPlant || grid[i].category
                == EntityCategory::Refinery || grid[i].category == EntityCategory::Beacon || grid[i].category
                == EntityCategory::Combinator || grid[i].category == EntityCategory::Lamp) && forall|k: int|
                0 <= k < grid.len() ==> !#[trigger] powers(grid, ps, k, grid[i]),
{
    lemma_gaps_upto(grid, ps, grid.len() as int);
    assert(gap_of(grid, ps, grid.len() as int, gaps_upto(grid, ps, grid.len() as int)[j]));
    let i = choose|i: int|
        0 <= i < grid.len() && unpowered(grid, ps, #[trigger] grid[i]) && grid[i].top_left == gaps_upto(grid, ps, grid.len() as int)[j];
    assert(unpowered(grid, ps, grid[i]));
}

/// The first entity lacking power, reported by the label of whatever
/// covers its top-left tile and by that tile.
pub open spec fn unpowered_reported(grid: Seq<PlacedEntity>, ps: Seq<crate::prototype::EntityPrototype>, recipe: Seq<char>, x: i32, y: i32) -> bool {
    let gaps = gaps_upto(grid, ps, grid.len() as int);
    &&& gaps.len() > 0
    &&& x == gaps[0].x && y == gaps[0].y
    &&& recipe == match entity_at(grid, x as int, y as int) {
        Some(i) => label(grid[i]),
        None => "?"@,
    }
}

/// Every entity that needs power has it; the first that lacks it is
/// reported by its label and top-left tile.
pub fn check_pole_coverage(grid: &Vec<PlacedEntity>, protos: &Prototypes) -> (res: Result<(), LayoutError>)
    ensures
        ({
            let gaps = gaps_upto(grid@, protos.spec_entries(), grid@.len() as int);
            match res {
                Ok(()) => gaps.len() == 0,
                Err(LayoutError::Unpowered { recipe, x, y }) => unpowered_reported(grid@, protos.spec_entries(), recipe@, x, y),
                Err(_) => false,
            }
        }),
{
    let gaps = coverage_gaps(grid, protos);
    if gaps.len() == 0 {
        return Ok(());
    }
    let g = gaps[0];
    let recipe = match get_at(grid, g.x as i128, g.y as i128) {
        Some(i) => label_of(&grid[i]),
        None => {
            proof {
                reveal_strlit("?");
            }
            String::from_str("?")
        },
    };
    Err(LayoutError::Unpowered { recipe, x: g.x, y: g.y })
}

/// The hard checks on a finished grid, in order: every machine has the
/// inserters its recipe needs, no two footprints overlap, and every entity
/// that needs power has it. The first that fails is the refusal.
pub fn validate_grid(grid: &Vec<PlacedEntity>, protos: &Prototypes, recipes: &RecipeRegistry) -> (res: Result<(), LayoutError>)
    ensures
        ({
            let ps = protos.spec_entries();
            let rs = recipes.spec_entries();
            let all_connected = forall|i: int| 0 <= i < grid@.len() && spec_is_machine(#[trigger] grid@[i].category) ==> connected(
                grid@,
                ps,
                rs,
                grid@[i],
            );
            let apart = forall|a: int, b: int| 0 <= a < b < grid@.len() ==> !footprints_meet(grid@[a], grid@[b]);
            let lit = gaps_upto(grid@, ps, grid@.len() as int).len() == 0;
            &&& res is Ok <==> all_connected && apart && lit
            &&& !all_connected ==> (res matches Err(LayoutError::MachineNotConnected { recipe, x, y, missing })
                && unconnected_reported(grid@, ps, rs, recipe@, x, y, missing@))
            &&& all_connected && !apart ==> (res matches Err(LayoutError::Overlap { x, y }) && overlap_reported(
                grid@,
                x as int,
                y as int,
            ))
            &&& all_connected && apart && !lit ==> (res matches Err(LayoutError::Unpowered { recipe, x, y })
                && unpowered_reported(grid@, ps, recipe@, x, y))
        }),
{
    check_machine_connectivity(grid, protos, recipes)?;
    check_no_overlaps(grid)?;
    check_pole_coverage(grid, protos)
}

} // verus!
