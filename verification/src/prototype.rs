//! Entity prototypes: the size, crafting ability, belt speed, pole reach and
//! inserter geometry of each kind of entity a block is built from.
use vstd::prelude::*;

use crate::registry::{Named, Registry};
use crate::text::{contains_name, texts};

verus! {

/// An exact fraction `num / den`, for the prototype figures that are not
/// whole numbers (a crafting speed of 0.75, a supply reach of 3.5, an
/// inserter's drop 1.2 tiles away).
#[derive(Debug, Clone, Copy, PartialEq, Eq)]
pub struct Frac {
    pub num: i64,
    pub den: i64,
}

/// `x / d` rounded down, for `d > 0`.
pub open spec fn floor_div(x: int, d: int) -> int
    recommends
        d > 0,
{
    x / d
}

impl Frac {
    /// A positive denominator, and a numerator that can be negated.
    pub open spec fn wf(self) -> bool {
        self.den > 0 && self.num > i64::MIN
    }

    pub open spec fn spec_lt(self, other: Frac) -> bool {
        self.num * other.den < other.num * self.den
    }

    pub open spec fn spec_eq(self, other: Frac) -> bool {
        self.num * other.den == other.num * self.den
    }

    /// The greatest integer not above the value.
    pub open spec fn spec_floor(self) -> int {
        floor_div(self.num as int, self.den as int)
    }

    /// The nearest integer, halves rounded away from zero.
    pub open spec fn spec_round(self) -> int {
        if self.num >= 0 {
            floor_div(2 * self.num + self.den, 2 * self.den)
        } else {
            -floor_div(2 * (-self.num) + self.den, 2 * self.den)
        }
    }

    pub fn new(num: i64, den: i64) -> (res: Self)
        requires
            den > 0,
            num > i64::MIN,
        ensures
            res.num == num,
            res.den == den,
            res.wf(),
    {
        Frac { num, den }
    }

    /// The whole number `n`.
    pub fn whole(n: i64) -> (res: Self)
        requires
            n > i64::MIN,
        ensures
            res.num == n,
            res.den == 1,
            res.wf(),
    {
        Frac { num: n, den: 1 }
    }

    pub fn lt(&self, other: &Frac) -> (res: bool)
        requires
            self.wf(),
            other.wf(),
        ensures
            res == self.spec_lt(*other),
    {
        mul_wide(self.num, other.den) < mul_wide(other.num, self.den)
    }

    pub fn same_value(&self, other: &Frac) -> (res: bool)
        requires
            self.wf(),
            other.wf(),
        ensures
            res == self.spec_eq(*other),
    {
        mul_wide(self.num, other.den) == mul_wide(other.num, self.den)
    }

    pub fn neg(&self) -> (res: Frac)
        requires
            self.wf(),
        ensures
            res.wf(),
            res.num == -self.num,
            res.den == self.den,
    {
        Frac { num: -self.num, den: self.den }
    }

    pub fn floor(&self) -> (res: i64)
        requires
            self.wf(),
        ensures
            res == self.spec_floor(),
    {
        let n = self.num;
        let d = self.den;
        if n >= 0 {
            n / d
        } else {
            let m = (-n) as i128;
            let dd = d as i128;
            let c = (m + dd - 1) / dd;
            proof {
                lemma_floor_negative(n as int, d as int);
                assert(0 <= c <= m) by (nonlinear_arith)
                    requires
                        c == (m + dd - 1) / (dd as int),
                        m >= 1,
                        dd >= 1,
                ;
            }
            -(c as i64)
        }
    }

    pub fn round(&self) -> (res: i64)
        requires
            self.wf(),
        ensures
            res == self.spec_round(),
    {
        let n = self.num as i128;
        let d = self.den as i128;
        if n >= 0 {
            let r = (2 * n + d) / (2 * d);
            proof {
                assert(r == floor_div(2 * self.num + self.den, 2 * self.den));
                assert(0 <= r <= n) by (nonlinear_arith)
                    requires
                        r == (2 * n + d) / (2 * d as int),
                        n >= 0,
                        d >= 1,
                ;
            }
            r as i64
        } else {
            let m = -n;
            let r = (2 * m + d) / (2 * d);
            proof {
                assert(r == floor_div(2 * (-self.num) + self.den, 2 * self.den));
                assert(0 <= r <= m) by (nonlinear_arith)
                    requires
                        r == (2 * m + d) / (2 * d as int),
                        m >= 1,
                        d >= 1,
                ;
            }
            -(r as i64)
        }
    }
}

/// `a * b` without overflow.
fn mul_wide(a: i64, b: i64) -> (res: i128)
    ensures
        res == a * b,
{
    proof {
        assert(-0x4000_0000_0000_0000_0000_0000_0000_0000 <= (a as int) * (b as int)
            <= 0x4000_0000_0000_0000_0000_0000_0000_0000) by (nonlinear_arith)
            requires
                i64::MIN <= a <= i64::MAX,
                i64::MIN <= b <= i64::MAX,
        ;
    }
    (a as i128) * (b as i128)
}

/// Floor division of a negative number by way of the ceiling of its negation.
proof fn lemma_floor_negative(x: int, d: int)
    requires
        d > 0,
        x < 0,
    ensures
        floor_div(x, d) == -((-x + d - 1) / d),
{
    let q = (-x + d - 1) / d;
    let r = (-x + d - 1) % d;
    assert(-x + d - 1 == q * d + r && 0 <= r < d) by (nonlinear_arith)
        requires
            d > 0,
            q == (-x + d - 1) / d,
            r == (-x + d - 1) % d,
    ;
    assert(x == (-q) * d + (d - 1 - r)) by (nonlinear_arith)
        requires
            -x + d - 1 == q * d + r,
    ;
    assert(x / d == -q) by (nonlinear_arith)
        requires
            x == (-q) * d + (d - 1 - r),
            0 <= d - 1 - r < d,
            d > 0,
    ;
}

/// A compass direction an entity faces. In the 16-direction scheme these are
/// 0, 4, 8 and 12.
#[derive(Debug, Clone, Copy, PartialEq, Eq, Hash, Structural)]
pub enum Direction {
    North,
    East,
    South,
    West,
}

impl Direction {
    pub open spec fn spec_as_u8(self) -> u8 {
        match self {
            Direction::North => 0,
            Direction::East => 4,
            Direction::South => 8,
            Direction::West => 12,
        }
    }

    /// The 16-direction code.
    pub fn as_u8(&self) -> (res: u8)
        ensures
            res == self.spec_as_u8(),
    {
        match self {
            Direction::North => 0,
            Direction::East => 4,
            Direction::South => 8,
            Direction::West => 12,
        }
    }

    /// Clockwise quarter turns from North.
    pub open spec fn spec_turns(self) -> u8 {
        (self.spec_as_u8() / 4) as u8
    }
}

/// What kind of thing an entity is, as far as power and connection go.
#[derive(Debug, Clone, Copy, PartialEq, Eq, Hash, Structural)]
pub enum EntityCategory {
    Belt,
    UndergroundBelt,
    Splitter,
    Inserter,
    Assembler,
    Furnace,
    ChemicalPlant,
    Refinery,
    Beacon,
    Combinator,
    Lamp,
    ElectricPole,
    Pipe,
    Container,
    Other,
}

/// One entity prototype, with the figures generation reads.
#[derive(Debug, Clone, PartialEq, Eq)]
pub struct EntityPrototype {
    pub name: String,
    pub category: EntityCategory,
    /// Footprint when facing North, in tiles.
    pub tile_width: u32,
    pub tile_height: u32,
    /// Crafting categories a machine covers; empty for anything else.
    pub crafting_categories: Vec<String>,
    pub crafting_speed: Option<Frac>,
    /// Items per second, both lanes together, for a belt.
    pub belt_throughput: Option<Frac>,
    /// Half-width of a pole's supply square, in tiles.
    pub supply_area_distance: Option<Frac>,
    /// Pickup and drop offsets of an inserter facing North, from its centre.
    pub pickup_position: Option<(Frac, Frac)>,
    pub insert_position: Option<(Frac, Frac)>,
}

pub open spec fn opt_frac_wf(f: Option<Frac>) -> bool {
    match f {
        Some(x) => x.wf(),
        None => true,
    }
}

pub open spec fn opt_pos_wf(p: Option<(Frac, Frac)>) -> bool {
    match p {
        Some((x, y)) => x.wf() && y.wf(),
        None => true,
    }
}

/// The largest footprint side generation works with.
pub const MAX_TILES: u32 = 64;

impl EntityPrototype {
    /// Every figure is a proper fraction and the footprint is a real size.
    pub open spec fn wf(self) -> bool {
        &&& 1 <= self.tile_width <= MAX_TILES
        &&& 1 <= self.tile_height <= MAX_TILES
        &&& opt_frac_wf(self.crafting_speed)
        &&& opt_frac_wf(self.belt_throughput)
        &&& opt_frac_wf(self.supply_area_distance)
        &&& opt_pos_wf(self.pickup_position)
        &&& opt_pos_wf(self.insert_position)
    }

    /// Whether this prototype covers crafting category `category`.
    pub fn crafts(&self, category: &str) -> (res: bool)
        ensures
            res == texts(self.crafting_categories@).contains(category@),
    {
        contains_name(&self.crafting_categories, category)
    }

    /// The footprint facing `direction`: width and height swap on a quarter turn.
    pub open spec fn spec_effective_size(self, direction: Direction) -> (u32, u32) {
        match direction {
            Direction::North | Direction::South => (self.tile_width, self.tile_height),
            Direction::East | Direction::West => (self.tile_height, self.tile_width),
        }
    }

    pub fn effective_size(&self, direction: Direction) -> (res: (u32, u32))
        ensures
            res == self.spec_effective_size(direction),
    {
        match direction {
            Direction::North | Direction::South => (self.tile_width, self.tile_height),
            Direction::East | Direction::West => (self.tile_height, self.tile_width),
        }
    }
}

impl Named for EntityPrototype {
    open spec fn key(&self) -> Seq<char> {
        self.name@
    }

    fn key_str(&self) -> (res: &str) {
        self.name.as_str()
    }
}

/// Every prototype in `ps` is well formed.
pub open spec fn all_wf(ps: Seq<EntityPrototype>) -> bool {
    forall|i: int| 0 <= i < ps.len() ==> (#[trigger] ps[i]).wf()
}

/// All prototypes, keyed by name, each well formed.
#[derive(Debug)]
pub struct Prototypes {
    reg: Registry<EntityPrototype>,
}

impl Prototypes {
    pub closed spec fn spec_entries(&self) -> Seq<EntityPrototype> {
        self.reg.spec_entries()
    }

    #[verifier::type_invariant]
    closed spec fn valid(&self) -> bool {
        all_wf(self.reg.spec_entries())
    }

    /// The prototypes of `ps`, a later one replacing an earlier one of the
    /// same name.
    pub fn from_prototypes(ps: Vec<EntityPrototype>) -> (res: Self)
        requires
            all_wf(ps@),
        ensures
            crate::registry::names_covered(res.spec_entries(), ps@, ps@.len() as int),
            crate::registry::latest_of_each_name(res.spec_entries(), ps@, ps@.len() as int),
    {
        let reg = Registry::from_entries(ps);
        proof {
            assert forall|j: int| 0 <= j < reg.spec_entries().len() implies (
            #[trigger] reg.spec_entries()[j]).wf() by {
                let i = choose|i: int| 0 <= i < ps@.len() && #[trigger] reg.spec_entries()[j] == ps@[i] && forall|m: int| i < m < ps@.len() ==> #[trigger] ps@[m].key() != ps@[i].key();
            }
        }
        Prototypes { reg }
    }

    /// Every prototype, in registry order.
    pub fn entries(&self) -> (res: &Vec<EntityPrototype>)
        ensures
            res@ == self.spec_entries(),
            all_wf(res@),
            crate::registry::unique_keys(res@),
    {
        proof {
            use_type_invariant(self);
        }
        self.reg.entries()
    }

    /// The prototype named `name`, if there is one.
    pub fn lookup(&self, name: &str) -> (res: Option<&EntityPrototype>)
        ensures
            res matches Some(p) ==> p.name@ == name@ && p.wf() && exists|i: int|
                0 <= i < self.spec_entries().len() && self.spec_entries()[i] == *p,
            res is None ==> forall|i: int|
                0 <= i < self.spec_entries().len() ==> #[trigger] self.spec_entries()[i].name@
                    != name@,
    {
        proof {
            use_type_invariant(self);
        }
        let r = self.reg.get(name);
        proof {
            if r is None {
                assert forall|i: int| 0 <= i < self.spec_entries().len() implies #[trigger] self.spec_entries()[i].name@ != name@ by {
                    assert(self.spec_entries()[i].key() != name@);
                }
            }
        }
        r
    }
}

} // verus!
